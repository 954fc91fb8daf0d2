//! The grammar, stated over the token sequence: what each rule of the
//! parser returns, and where it leaves the cursor, from a given position.
//!
//! Comments are invisible to every rule. Where the newline flag is set,
//! line breaks are skipped too; where it is not, a line break ends the
//! statement.
use vstd::prelude::*;
use crate::ast::Tree;
use crate::span::Span;
use crate::token::{describe, TokenKind};

verus! {

/// A syntax error: its message and the span it points at.
pub type SyntaxError = (Seq<char>, Span);

/// What a rule returns, and where it leaves the cursor.
pub type Outcome<T> = (Result<T, SyntaxError>, int);

/// The first position at or after `p` that does not hold a comment.
pub open spec fn skip_comments(ts: Seq<(TokenKind, Span)>, p: int) -> int
    decreases ts.len() - p,
{
    if 0 <= p < ts.len() && ts[p].0 is Comment {
        skip_comments(ts, p + 1)
    } else {
        p
    }
}

/// Skips comments, and line breaks too when `nl` holds.
pub open spec fn skip_newlines(ts: Seq<(TokenKind, Span)>, p: int, nl: bool) -> int
    decreases ts.len() - p,
{
    if !nl {
        p
    } else {
        let q = skip_comments(ts, p);
        if 0 <= q < ts.len() && ts[q].0 is Eol {
            proof {
                lemma_skip_comments(ts, p);
            }
            skip_newlines(ts, q + 1, nl)
        } else {
            q
        }
    }
}

/// Position of the next token that a rule sees from `p`.
pub open spec fn next_pos(ts: Seq<(TokenKind, Span)>, p: int, nl: bool) -> int {
    skip_comments(ts, skip_newlines(ts, p, nl))
}

/// Error for a rule that expected `what` and met position `q`.
pub open spec fn mismatch(ts: Seq<(TokenKind, Span)>, end: usize, q: int, what: Seq<char>) -> SyntaxError {
    if 0 <= q < ts.len() {
        ("expected "@ + what + ", found "@ + describe(ts[q].0), ts[q].1)
    } else {
        ("expected "@ + what + ", found end of input"@, Span { start: end, end })
    }
}

/// Expects a token of the given kind.
pub open spec fn expect_token(
    ts: Seq<(TokenKind, Span)>,
    end: usize,
    kind: TokenKind,
    p: int,
    nl: bool,
) -> Outcome<()> {
    let q = next_pos(ts, p, nl);
    if 0 <= q < ts.len() && ts[q].0 == kind {
        (Ok(()), q + 1)
    } else {
        (Err(mismatch(ts, end, q, "token "@ + describe(kind))), q)
    }
}

/// Expects an identifier and returns its name.
pub open spec fn expect_ident(ts: Seq<(TokenKind, Span)>, end: usize, p: int, nl: bool) -> Outcome<Seq<char>> {
    let q = next_pos(ts, p, nl);
    if 0 <= q < ts.len() && ts[q].0 is Ident {
        (Ok(ts[q].0->Ident_0), q + 1)
    } else {
        (Err(mismatch(ts, end, q, "identifier"@)), q)
    }
}

/// Expects a number literal and returns its value.
pub open spec fn expect_number(ts: Seq<(TokenKind, Span)>, end: usize, p: int, nl: bool) -> Outcome<u64> {
    let q = next_pos(ts, p, nl);
    if 0 <= q < ts.len() && ts[q].0 is Num {
        (Ok(ts[q].0->Num_0), q + 1)
    } else {
        (Err(mismatch(ts, end, q, "number"@)), q)
    }
}

/// The node that operator `kind` builds at precedence level `lv`, if it is
/// an operator of that level: 5 comparison, 4 disjunction, 3 conjunction,
/// 2 sum, 1 product.
pub open spec fn binary_node(lv: nat, kind: TokenKind, l: Tree, r: Tree) -> Option<Tree> {
    let (l, r) = (Box::new(l), Box::new(r));
    if lv == 5 && kind == TokenKind::Eq {
        Some(Tree::Eq(l, r))
    } else if lv == 5 && kind == TokenKind::Neq {
        Some(Tree::Neq(l, r))
    } else if lv == 4 && kind == TokenKind::Or {
        Some(Tree::Or(l, r))
    } else if lv == 3 && kind == TokenKind::And {
        Some(Tree::And(l, r))
    } else if lv == 2 && kind == TokenKind::Add {
        Some(Tree::Add(l, r))
    } else if lv == 2 && kind == TokenKind::Sub {
        Some(Tree::Sub(l, r))
    } else if lv == 1 && kind == TokenKind::Mul {
        Some(Tree::Mul(l, r))
    } else if lv == 1 && kind == TokenKind::Div {
        Some(Tree::Div(l, r))
    } else {
        None
    }
}

/// Whether `kind` is an operator of precedence level `lv`.
pub open spec fn is_operator(lv: nat, kind: TokenKind) -> bool {
    ||| lv == 5 && (kind == TokenKind::Eq || kind == TokenKind::Neq)
    ||| lv == 4 && kind == TokenKind::Or
    ||| lv == 3 && kind == TokenKind::And
    ||| lv == 2 && (kind == TokenKind::Add || kind == TokenKind::Sub)
    ||| lv == 1 && (kind == TokenKind::Mul || kind == TokenKind::Div)
}

/// Tokens that can start a unary expression, and so continue an application.
pub open spec fn starts_unary(kind: TokenKind) -> bool {
    kind is LPar || kind is Not || kind is Ident || kind is Num
}

/// Abstraction := (`\` | `λ`) Identifier `.` Abstraction | Comparison
pub open spec fn abstraction(ts: Seq<(TokenKind, Span)>, end: usize, p: int, nl: bool) -> Outcome<Tree>
    decreases ts.len() - p, 8nat,
{
    if !(0 <= p <= ts.len()) {
        (Err(mismatch(ts, end, p, "expression"@)), p)
    } else {
        proof {
            lemma_next_pos(ts, p, nl);
        }
        let (r1, c1) = expect_token(ts, end, TokenKind::Lambda, p, nl);
        match r1 {
            Ok(_) => {
                proof {
                    lemma_next_pos(ts, c1, nl);
                }
                let (r2, c2) = expect_ident(ts, end, c1, nl);
                match r2 {
                    Err(e) => (Err(e), c2),
                    Ok(name) => {
                        proof {
                            lemma_next_pos(ts, c2, nl);
                        }
                        let (r3, c3) = expect_token(ts, end, TokenKind::Dot, c2, nl);
                        match r3 {
                            Err(e) => (Err(e), c3),
                            Ok(_) => {
                                let (r4, c4) = abstraction(ts, end, c3, nl);
                                match r4 {
                                    Err(e) => (Err(e), c4),
                                    Ok(body) => (Ok(Tree::Abs(name, Box::new(body))), c4),
                                }
                            },
                        }
                    },
                }
            },
            Err(_) => level(ts, end, 5, c1, nl),
        }
    }
}

/// A left-associative chain of operators of level `lv` over operands of
/// the next level.
pub open spec fn level(ts: Seq<(TokenKind, Span)>, end: usize, lv: nat, p: int, nl: bool) -> Outcome<Tree>
    decreases ts.len() - p, lv + 2,
{
    let (r, c1) = if lv <= 1 {
        application(ts, end, p, nl)
    } else {
        level(ts, end, (lv - 1) as nat, p, nl)
    };
    match r {
        Err(e) => (Err(e), c1),
        Ok(t) => if p < c1 <= ts.len() {
            level_rest(ts, end, lv, c1, nl, t)
        } else {
            (Ok(t), c1)
        },
    }
}

/// The rest of an operator chain of level `lv`, after the operand `acc`.
pub open spec fn level_rest(
    ts: Seq<(TokenKind, Span)>,
    end: usize,
    lv: nat,
    p: int,
    nl: bool,
    acc: Tree,
) -> Outcome<Tree>
    decreases ts.len() - p, 0nat,
{
    let q = next_pos(ts, p, nl);
    if 0 <= p && 0 <= q < ts.len() && is_operator(lv, ts[q].0) {
        proof {
            lemma_next_pos(ts, p, nl);
        }
        let (r, c2) = if lv <= 1 {
            application(ts, end, q + 1, nl)
        } else {
            level(ts, end, (lv - 1) as nat, q + 1, nl)
        };
        match r {
            Err(e) => (Err(e), c2),
            Ok(rhs) => {
                let t = binary_node(lv, ts[q].0, acc, rhs)->Some_0;
                if p < c2 <= ts.len() {
                    level_rest(ts, end, lv, c2, nl, t)
                } else {
                    (Ok(t), c2)
                }
            },
        }
    } else {
        (Ok(acc), q)
    }
}

/// Application := Unary (Unary)*
pub open spec fn application(ts: Seq<(TokenKind, Span)>, end: usize, p: int, nl: bool) -> Outcome<Tree>
    decreases ts.len() - p, 1nat,
{
    let (r, c1) = unary(ts, end, p, nl);
    match r {
        Err(e) => (Err(e), c1),
        Ok(t) => if p < c1 <= ts.len() {
            application_rest(ts, end, c1, nl, t)
        } else {
            (Ok(t), c1)
        },
    }
}

/// The rest of an application, after the function part `acc`.
pub open spec fn application_rest(
    ts: Seq<(TokenKind, Span)>,
    end: usize,
    p: int,
    nl: bool,
    acc: Tree,
) -> Outcome<Tree>
    decreases ts.len() - p, 1nat,
{
    let q = next_pos(ts, p, nl);
    if 0 <= p && 0 <= q < ts.len() && starts_unary(ts[q].0) {
        proof {
            lemma_next_pos(ts, p, nl);
        }
        let (r, c2) = unary(ts, end, q, nl);
        match r {
            Err(e) => (Err(e), c2),
            Ok(arg) => {
                let t = Tree::App(Box::new(acc), Box::new(arg));
                if p < c2 <= ts.len() {
                    application_rest(ts, end, c2, nl, t)
                } else {
                    (Ok(t), c2)
                }
            },
        }
    } else {
        (Ok(acc), q)
    }
}

/// Unary := `(` Abstraction `)` | `!` Unary | Identifier | Number
pub open spec fn unary(ts: Seq<(TokenKind, Span)>, end: usize, p: int, nl: bool) -> Outcome<Tree>
    decreases ts.len() - p, 0nat,
{
    let q = next_pos(ts, p, nl);
    if 0 <= p && 0 <= q < ts.len() {
        proof {
            lemma_next_pos(ts, p, nl);
        }
        match ts[q].0 {
            TokenKind::LPar => {
                let (r, c1) = abstraction(ts, end, q + 1, true);
                match r {
                    Err(e) => (Err(e), c1),
                    Ok(e) => {
                        let (r2, c2) = expect_token(ts, end, TokenKind::RPar, c1, nl);
                        match r2 {
                            Err(err) => (Err(err), c2),
                            Ok(_) => (Ok(e), c2),
                        }
                    },
                }
            },
            TokenKind::Not => {
                let (r, c1) = unary(ts, end, q + 1, nl);
                match r {
                    Err(e) => (Err(e), c1),
                    Ok(e) => (Ok(Tree::Not(Box::new(e))), c1),
                }
            },
            TokenKind::Ident(name) => (Ok(Tree::Var(name)), q + 1),
            TokenKind::Num(n) => (Ok(Tree::Num(n)), q + 1),
            _ => (Err(mismatch(ts, end, q, "expression"@)), q),
        }
    } else {
        (Err(mismatch(ts, end, q, "expression"@)), q)
    }
}

/// Assignment := Identifier `=` Abstraction
pub open spec fn assignment(ts: Seq<(TokenKind, Span)>, end: usize, p: int, nl: bool) -> Outcome<Tree> {
    let (r1, c1) = expect_ident(ts, end, p, nl);
    match r1 {
        Err(e) => (Err(e), c1),
        Ok(name) => {
            let (r2, c2) = expect_token(ts, end, TokenKind::Assign, c1, nl);
            match r2 {
                Err(e) => (Err(e), c2),
                Ok(_) => {
                    let (r3, c3) = abstraction(ts, end, c2, nl);
                    match r3 {
                        Err(e) => (Err(e), c3),
                        Ok(value) => (Ok(Tree::Assign(name, Box::new(value))), c3),
                    }
                },
            }
        },
    }
}

/// Of two failed alternatives, the one whose error starts later; the first
/// on a tie.
pub open spec fn later_error(a: SyntaxError, b: SyntaxError) -> SyntaxError {
    if b.1.start > a.1.start {
        b
    } else {
        a
    }
}

/// A single statement: an assignment, or else a bare expression.
pub open spec fn line(ts: Seq<(TokenKind, Span)>, end: usize) -> Result<Tree, SyntaxError> {
    match assignment(ts, end, 0, false).0 {
        Ok(t) => Ok(t),
        Err(e1) => match abstraction(ts, end, 0, false).0 {
            Ok(t) => Ok(t),
            Err(e2) => Err(later_error(e1, e2)),
        },
    }
}

/// Position just after the next line break at or after `p`, skipping the
/// tokens before it; the end when there is none.
pub open spec fn sync_to_newline(ts: Seq<(TokenKind, Span)>, p: int) -> int
    decreases ts.len() - p,
{
    let q = skip_comments(ts, p);
    if 0 <= p && 0 <= q < ts.len() {
        proof {
            lemma_skip_comments(ts, p);
        }
        if ts[q].0 is Eol {
            q + 1
        } else {
            sync_to_newline(ts, q + 1)
        }
    } else {
        q
    }
}

/// The statements of a file from position `p`, and the error of each
/// statement that failed, in source order. After a failed statement the
/// parse resumes after the next line break.
pub open spec fn file_from(ts: Seq<(TokenKind, Span)>, end: usize, p: int) -> (Seq<Tree>, Seq<SyntaxError>)
    decreases ts.len() - p,
{
    let q = next_pos(ts, p, true);
    if 0 <= p && 0 <= q < ts.len() {
        proof {
            lemma_next_pos(ts, p, true);
        }
        let (r, c1) = assignment(ts, end, q, false);
        match r {
            Ok(t) => if p < c1 <= ts.len() {
                let rest = file_from(ts, end, c1);
                (seq![t] + rest.0, rest.1)
            } else {
                (seq![t], seq![])
            },
            Err(e) => {
                let c2 = sync_to_newline(ts, c1);
                if p < c2 <= ts.len() {
                    let rest = file_from(ts, end, c2);
                    (rest.0, seq![e] + rest.1)
                } else {
                    (seq![], seq![e])
                }
            },
        }
    } else {
        (seq![], seq![])
    }
}

/// A whole file: its statements when none failed, else every error.
pub open spec fn file(ts: Seq<(TokenKind, Span)>, end: usize) -> Result<Seq<Tree>, Seq<SyntaxError>> {
    let (stmts, errors) = file_from(ts, end, 0);
    if errors.len() == 0 {
        Ok(stmts)
    } else {
        Err(errors)
    }
}

/// Skipping comments stays in the sequence and stops on a non-comment.
pub proof fn lemma_skip_comments(ts: Seq<(TokenKind, Span)>, p: int)
    ensures
        p <= skip_comments(ts, p),
        0 <= p <= ts.len() ==> skip_comments(ts, p) <= ts.len(),
        0 <= skip_comments(ts, p) < ts.len() ==> !(ts[skip_comments(ts, p)].0 is Comment),
    decreases ts.len() - p,
{
    if 0 <= p < ts.len() && ts[p].0 is Comment {
        lemma_skip_comments(ts, p + 1);
    }
}

/// Skipping line breaks never moves back nor past the end.
pub proof fn lemma_skip_newlines(ts: Seq<(TokenKind, Span)>, p: int, nl: bool)
    ensures
        p <= skip_newlines(ts, p, nl),
        0 <= p <= ts.len() ==> skip_newlines(ts, p, nl) <= ts.len(),
    decreases ts.len() - p,
{
    if nl {
        lemma_skip_comments(ts, p);
        let q = skip_comments(ts, p);
        if 0 <= q < ts.len() && ts[q].0 is Eol {
            lemma_skip_newlines(ts, q + 1, nl);
        }
    }
}

/// At a token that is neither a comment nor a line break, no rule skips
/// anything.
pub proof fn lemma_next_pos_at_token(ts: Seq<(TokenKind, Span)>, q: int, nl: bool)
    requires
        0 <= q < ts.len(),
        !(ts[q].0 is Comment),
        !(ts[q].0 is Eol),
    ensures
        next_pos(ts, q, nl) == q,
{
}

/// The next visible token is at or after `p`, and not past the end.
pub proof fn lemma_next_pos(ts: Seq<(TokenKind, Span)>, p: int, nl: bool)
    ensures
        p <= next_pos(ts, p, nl),
        0 <= p <= ts.len() ==> next_pos(ts, p, nl) <= ts.len(),
{
    lemma_skip_newlines(ts, p, nl);
    lemma_skip_comments(ts, skip_newlines(ts, p, nl));
}

/// A rule that succeeds moves the cursor forward; one that fails does not
/// move it back; neither moves it past the end.
pub open spec fn advanced<T>(o: Outcome<T>, p: int, len: int) -> bool {
    match o.0 {
        Ok(_) => p < o.1 <= len,
        Err(_) => p <= o.1 <= len,
    }
}

/// A syntax error points at one of the tokens, or at the end of the input.
pub open spec fn located(ts: Seq<(TokenKind, Span)>, end: usize, span: Span) -> bool {
    span == (Span { start: end, end }) || exists|q: int| 0 <= q < ts.len() && #[trigger] ts[q].1 == span
}

pub open spec fn located_outcome<T>(ts: Seq<(TokenKind, Span)>, end: usize, o: Outcome<T>) -> bool {
    match o.0 {
        Ok(_) => true,
        Err(e) => located(ts, end, e.1),
    }
}

proof fn lemma_mismatch_located(ts: Seq<(TokenKind, Span)>, end: usize, q: int, what: Seq<char>)
    ensures
        located(ts, end, mismatch(ts, end, q, what).1),
{
    if 0 <= q < ts.len() {
        assert(ts[q].1 == mismatch(ts, end, q, what).1);
    }
}

/// Expecting a single token consumes it on success.
pub proof fn lemma_expect_advances(ts: Seq<(TokenKind, Span)>, end: usize, kind: TokenKind, p: int, nl: bool)
    requires
        0 <= p <= ts.len(),
    ensures
        advanced(expect_token(ts, end, kind, p, nl), p, ts.len() as int),
        located_outcome(ts, end, expect_token(ts, end, kind, p, nl)),
        located_outcome(ts, end, expect_ident(ts, end, p, nl)),
        advanced(expect_ident(ts, end, p, nl), p, ts.len() as int),
        advanced(expect_number(ts, end, p, nl), p, ts.len() as int),
{
    lemma_next_pos(ts, p, nl);
    lemma_mismatch_located(ts, end, next_pos(ts, p, nl), "token "@ + describe(kind));
    lemma_mismatch_located(ts, end, next_pos(ts, p, nl), "identifier"@);
}

/// An abstraction that parses consumes at least one token.
pub proof fn lemma_abstraction_advances(ts: Seq<(TokenKind, Span)>, end: usize, p: int, nl: bool)
    requires
        0 <= p <= ts.len(),
    ensures
        advanced(abstraction(ts, end, p, nl), p, ts.len() as int),
        located_outcome(ts, end, abstraction(ts, end, p, nl)),
    decreases ts.len() - p, 8nat,
{
    lemma_expect_advances(ts, end, TokenKind::Lambda, p, nl);
    let (r1, c1) = expect_token(ts, end, TokenKind::Lambda, p, nl);
    match r1 {
        Ok(_) => {
            lemma_expect_advances(ts, end, TokenKind::Lambda, c1, nl);
            let (r2, c2) = expect_ident(ts, end, c1, nl);
            if r2 is Ok {
                lemma_expect_advances(ts, end, TokenKind::Dot, c2, nl);
                let (r3, c3) = expect_token(ts, end, TokenKind::Dot, c2, nl);
                if r3 is Ok {
                    lemma_abstraction_advances(ts, end, c3, nl);
                }
            }
        },
        Err(_) => lemma_level_advances(ts, end, 5, c1, nl),
    }
}

/// An operator chain that parses consumes at least one token.
pub proof fn lemma_level_advances(ts: Seq<(TokenKind, Span)>, end: usize, lv: nat, p: int, nl: bool)
    requires
        0 <= p <= ts.len(),
    ensures
        advanced(level(ts, end, lv, p, nl), p, ts.len() as int),
        located_outcome(ts, end, level(ts, end, lv, p, nl)),
    decreases ts.len() - p, lv + 2,
{
    if lv <= 1 {
        lemma_application_advances(ts, end, p, nl);
    } else {
        lemma_level_advances(ts, end, (lv - 1) as nat, p, nl);
    }
    let (r, c1) = if lv <= 1 {
        application(ts, end, p, nl)
    } else {
        level(ts, end, (lv - 1) as nat, p, nl)
    };
    if r is Ok && p < c1 <= ts.len() {
        lemma_level_rest_advances(ts, end, lv, c1, nl, r->Ok_0);
    }
}

/// The rest of an operator chain never moves the cursor back.
pub proof fn lemma_level_rest_advances(
    ts: Seq<(TokenKind, Span)>,
    end: usize,
    lv: nat,
    p: int,
    nl: bool,
    acc: Tree,
)
    requires
        0 <= p <= ts.len(),
    ensures
        p <= level_rest(ts, end, lv, p, nl, acc).1 <= ts.len(),
        located_outcome(ts, end, level_rest(ts, end, lv, p, nl, acc)),
    decreases ts.len() - p, 0nat,
{
    lemma_next_pos(ts, p, nl);
    let q = next_pos(ts, p, nl);
    if 0 <= q < ts.len() && is_operator(lv, ts[q].0) {
        if lv <= 1 {
            lemma_application_advances(ts, end, q + 1, nl);
        } else {
            lemma_level_advances(ts, end, (lv - 1) as nat, q + 1, nl);
        }
        let (r, c2) = if lv <= 1 {
            application(ts, end, q + 1, nl)
        } else {
            level(ts, end, (lv - 1) as nat, q + 1, nl)
        };
        if r is Ok && p < c2 <= ts.len() {
            let t = binary_node(lv, ts[q].0, acc, r->Ok_0)->Some_0;
            lemma_level_rest_advances(ts, end, lv, c2, nl, t);
        }
    }
}

/// An application that parses consumes at least one token.
pub proof fn lemma_application_advances(ts: Seq<(TokenKind, Span)>, end: usize, p: int, nl: bool)
    requires
        0 <= p <= ts.len(),
    ensures
        advanced(application(ts, end, p, nl), p, ts.len() as int),
        located_outcome(ts, end, application(ts, end, p, nl)),
    decreases ts.len() - p, 1nat,
{
    lemma_unary_advances(ts, end, p, nl);
    let (r, c1) = unary(ts, end, p, nl);
    if r is Ok && p < c1 <= ts.len() {
        lemma_application_rest_advances(ts, end, c1, nl, r->Ok_0);
    }
}

/// The rest of an application never moves the cursor back.
pub proof fn lemma_application_rest_advances(
    ts: Seq<(TokenKind, Span)>,
    end: usize,
    p: int,
    nl: bool,
    acc: Tree,
)
    requires
        0 <= p <= ts.len(),
    ensures
        p <= application_rest(ts, end, p, nl, acc).1 <= ts.len(),
        located_outcome(ts, end, application_rest(ts, end, p, nl, acc)),
    decreases ts.len() - p, 1nat,
{
    lemma_next_pos(ts, p, nl);
    let q = next_pos(ts, p, nl);
    if 0 <= q < ts.len() && starts_unary(ts[q].0) {
        lemma_unary_advances(ts, end, q, nl);
        let (r, c2) = unary(ts, end, q, nl);
        if r is Ok && p < c2 <= ts.len() {
            let t = Tree::App(Box::new(acc), Box::new(r->Ok_0));
            lemma_application_rest_advances(ts, end, c2, nl, t);
        }
    }
}

/// A unary expression that parses consumes at least one token.
pub proof fn lemma_unary_advances(ts: Seq<(TokenKind, Span)>, end: usize, p: int, nl: bool)
    requires
        0 <= p <= ts.len(),
    ensures
        advanced(unary(ts, end, p, nl), p, ts.len() as int),
        located_outcome(ts, end, unary(ts, end, p, nl)),
    decreases ts.len() - p, 0nat,
{
    lemma_next_pos(ts, p, nl);
    lemma_mismatch_located(ts, end, next_pos(ts, p, nl), "expression"@);
    let q = next_pos(ts, p, nl);
    if 0 <= q < ts.len() {
        match ts[q].0 {
            TokenKind::LPar => {
                lemma_abstraction_advances(ts, end, q + 1, true);
                let (r, c1) = abstraction(ts, end, q + 1, true);
                if r is Ok {
                    lemma_expect_advances(ts, end, TokenKind::RPar, c1, nl);
                }
            },
            TokenKind::Not => {
                lemma_unary_advances(ts, end, q + 1, nl);
            },
            _ => {},
        }
    }
}

/// An assignment that parses consumes at least one token.
pub proof fn lemma_assignment_advances(ts: Seq<(TokenKind, Span)>, end: usize, p: int, nl: bool)
    requires
        0 <= p <= ts.len(),
    ensures
        advanced(assignment(ts, end, p, nl), p, ts.len() as int),
        located_outcome(ts, end, assignment(ts, end, p, nl)),
{
    lemma_expect_advances(ts, end, TokenKind::Assign, p, nl);
    let (r1, c1) = expect_ident(ts, end, p, nl);
    if r1 is Ok {
        lemma_expect_advances(ts, end, TokenKind::Assign, c1, nl);
        let (r2, c2) = expect_token(ts, end, TokenKind::Assign, c1, nl);
        if r2 is Ok {
            lemma_abstraction_advances(ts, end, c2, nl);
        }
    }
}

/// Skipping to the next line break moves past at least one token when any
/// is left.
pub proof fn lemma_sync_advances(ts: Seq<(TokenKind, Span)>, p: int)
    requires
        0 <= p <= ts.len(),
    ensures
        p <= sync_to_newline(ts, p) <= ts.len(),
        p < ts.len() ==> p < sync_to_newline(ts, p),
    decreases ts.len() - p,
{
    lemma_skip_comments(ts, p);
    let q = skip_comments(ts, p);
    if q < ts.len() && !(ts[q].0 is Eol) {
        lemma_sync_advances(ts, q + 1);
    }
}

/// The trees of the statements that parsed, in order.
pub open spec fn parsed_trees(outcomes: Seq<Outcome<Tree>>) -> Seq<Tree>
    decreases outcomes.len(),
{
    if outcomes.len() == 0 {
        seq![]
    } else {
        (match outcomes[0].0 {
            Ok(t) => seq![t],
            Err(_) => seq![],
        }) + parsed_trees(outcomes.drop_first())
    }
}

/// The errors of the statements that failed, in order.
pub open spec fn failed_errors(outcomes: Seq<Outcome<Tree>>) -> Seq<SyntaxError>
    decreases outcomes.len(),
{
    if outcomes.len() == 0 {
        seq![]
    } else {
        (match outcomes[0].0 {
            Ok(_) => seq![],
            Err(e) => seq![e],
        }) + failed_errors(outcomes.drop_first())
    }
}

/// The file `ts` holds one statement per line, in place. Before the first
/// statement, between two statements and after the last there are only
/// line breaks and comments: statement `i` starts at `starts[i]`, the
/// first token after those, and its line ends at `ends[i]`, on a line break
/// or at the end of the file. Parsing statement `i` as an assignment gives
/// `outcomes[i]`: a tree that ends exactly where its line ends, or an error
/// met on its line, before its line break.
pub open spec fn lines_of_outcomes(
    ts: Seq<(TokenKind, Span)>,
    end: usize,
    starts: Seq<int>,
    ends: Seq<int>,
    outcomes: Seq<Outcome<Tree>>,
) -> bool {
    let n = outcomes.len() as int;
    &&& starts.len() == n && ends.len() == n
    &&& next_pos(ts, 0, true) == if n == 0 {
        ts.len() as int
    } else {
        starts[0]
    }
    &&& forall|i: int|
        0 <= i < n ==> {
            &&& 0 <= #[trigger] starts[i] < ts.len()
            &&& starts[i] <= ends[i] <= ts.len()
            &&& ends[i] < ts.len() ==> ts[ends[i]].0 is Eol
            &&& next_pos(ts, ends[i], true) == if i + 1 < n {
                starts[i + 1]
            } else {
                ts.len() as int
            }
            &&& assignment(ts, end, starts[i], false) == outcomes[i]
            &&& match outcomes[i].0 {
                Ok(_) => outcomes[i].1 == ends[i],
                Err(_) => starts[i] <= outcomes[i].1 <= ends[i] && forall|k: int|
                    outcomes[i].1 <= k < ends[i] ==> !(#[trigger] ts[k].0 is Eol),
            }
        }
}

proof fn lemma_sync_within_line(ts: Seq<(TokenKind, Span)>, p: int, e: int)
    requires
        0 <= p <= e < ts.len(),
        ts[e].0 is Eol,
        forall|k: int| p <= k < e ==> !(#[trigger] ts[k].0 is Eol),
    ensures
        sync_to_newline(ts, p) == e + 1,
    decreases e - p,
{
    lemma_skip_comments(ts, p);
    let q = skip_comments(ts, p);
    if q > e {
        lemma_skip_comments_stops(ts, p, e);
    }
    if q < e {
        lemma_sync_within_line(ts, q + 1, e);
    }
}

proof fn lemma_sync_to_end(ts: Seq<(TokenKind, Span)>, p: int)
    requires
        0 <= p <= ts.len(),
        forall|k: int| p <= k < ts.len() ==> !(#[trigger] ts[k].0 is Eol),
    ensures
        sync_to_newline(ts, p) == ts.len(),
    decreases ts.len() - p,
{
    lemma_skip_comments(ts, p);
    let q = skip_comments(ts, p);
    if q < ts.len() {
        lemma_sync_to_end(ts, q + 1);
    }
}

proof fn lemma_skip_comments_stops(ts: Seq<(TokenKind, Span)>, p: int, e: int)
    requires
        0 <= p <= e < ts.len(),
        !(ts[e].0 is Comment),
    ensures
        skip_comments(ts, p) <= e,
    decreases e - p,
{
    if p < e && ts[p].0 is Comment {
        lemma_skip_comments_stops(ts, p + 1, e);
    }
}

/// From any position whose next statement is statement `k`, the file parses
/// to the trees and errors of statements `k` onward.
#[verifier::rlimit(80)]
proof fn lemma_file_from_line(
    ts: Seq<(TokenKind, Span)>,
    end: usize,
    starts: Seq<int>,
    ends: Seq<int>,
    outcomes: Seq<Outcome<Tree>>,
    k: int,
    x: int,
)
    requires
        lines_of_outcomes(ts, end, starts, ends, outcomes),
        0 <= k < outcomes.len(),
        0 <= x <= ts.len(),
        next_pos(ts, x, true) == starts[k],
    ensures
        file_from(ts, end, x) == (
            parsed_trees(outcomes.subrange(k, outcomes.len() as int)),
            failed_errors(outcomes.subrange(k, outcomes.len() as int)),
        ),
    decreases outcomes.len() - k,
{
    let n = outcomes.len() as int;
    let s = starts[k];
    let e = ends[k];
    assert(0 <= starts[k] < ts.len());
    lemma_next_pos(ts, x, true);
    lemma_assignment_advances(ts, end, s, false);
    let rest = outcomes.subrange(k + 1, n);
    let sub = outcomes.subrange(k, n);
    assert(sub.drop_first() =~= rest);
    assert(sub[0] == outcomes[k]);
    // where parsing resumes after statement `k`, and what it gives
    let resume = if outcomes[k].0 is Ok {
        e
    } else if e < ts.len() {
        e + 1
    } else {
        ts.len() as int
    };
    if e < ts.len() {
        assert(skip_newlines(ts, e, true) == skip_newlines(ts, e + 1, true));
    }
    if k + 1 < n {
        lemma_file_from_line(ts, end, starts, ends, outcomes, k + 1, resume);
    } else {
        assert(rest =~= Seq::<Outcome<Tree>>::empty());
        lemma_next_pos(ts, resume, true);
        assert(file_from(ts, end, resume) == (Seq::<Tree>::empty(), Seq::<SyntaxError>::empty()));
    }
    let after = file_from(ts, end, resume);
    assert(after == (parsed_trees(rest), failed_errors(rest)));
    match outcomes[k].0 {
        Ok(t) => {
            assert(file_from(ts, end, x) == (seq![t] + after.0, after.1));
            assert(parsed_trees(sub) == seq![t] + parsed_trees(rest));
            assert(failed_errors(sub) =~= failed_errors(rest));
        },
        Err(err) => {
            if e < ts.len() {
                lemma_sync_within_line(ts, outcomes[k].1, e);
            } else {
                lemma_sync_to_end(ts, outcomes[k].1);
            }
            assert(file_from(ts, end, x) == (after.0, seq![err] + after.1));
            assert(parsed_trees(sub) =~= parsed_trees(rest));
            assert(failed_errors(sub) == seq![err] + failed_errors(rest));
        },
    }
}

/// Every failing statement of a file is reported, in source order, with
/// the error met on its own line; the statements that parse are kept, in
/// order. The parse fails exactly when some statement fails.
pub proof fn lemma_every_failure_reported(
    ts: Seq<(TokenKind, Span)>,
    end: usize,
    starts: Seq<int>,
    ends: Seq<int>,
    outcomes: Seq<Outcome<Tree>>,
)
    requires
        lines_of_outcomes(ts, end, starts, ends, outcomes),
    ensures
        file_from(ts, end, 0) == (parsed_trees(outcomes), failed_errors(outcomes)),
        file(ts, end) == if failed_errors(outcomes).len() == 0 {
            Ok::<Seq<Tree>, Seq<SyntaxError>>(parsed_trees(outcomes))
        } else {
            Err(failed_errors(outcomes))
        },
{
    let n = outcomes.len() as int;
    if n == 0 {
        assert(file_from(ts, end, 0) == (Seq::<Tree>::empty(), Seq::<SyntaxError>::empty()));
    } else {
        lemma_file_from_line(ts, end, starts, ends, outcomes, 0, 0);
        assert(outcomes.subrange(0, n) =~= outcomes);
    }
}

/// Statements that all parse: each outcome is the statement's tree, ending
/// where its line ends.
pub open spec fn all_parsed(stmts: Seq<Tree>, ends: Seq<int>) -> Seq<Outcome<Tree>> {
    Seq::new(stmts.len(), |i: int| (Ok::<Tree, SyntaxError>(stmts[i]), ends[i]))
}

proof fn lemma_all_parsed(stmts: Seq<Tree>, ends: Seq<int>)
    requires
        ends.len() == stmts.len(),
    ensures
        parsed_trees(all_parsed(stmts, ends)) == stmts,
        failed_errors(all_parsed(stmts, ends)) == Seq::<SyntaxError>::empty(),
    decreases stmts.len(),
{
    if stmts.len() > 0 {
        let rest = stmts.drop_first();
        lemma_all_parsed(rest, ends.drop_first());
        assert(all_parsed(stmts, ends).drop_first() =~= all_parsed(rest, ends.drop_first()));
        assert(stmts =~= seq![stmts[0]] + rest);
        assert(failed_errors(all_parsed(stmts, ends)) =~= Seq::<SyntaxError>::empty());
    }
}

/// A file of N correct assignments, one per line, parses to a program of
/// exactly those N statements, in source order. Blank lines and comment
/// lines may stand anywhere, and the last line break may be missing.
pub proof fn lemma_statements_in_order(
    ts: Seq<(TokenKind, Span)>,
    end: usize,
    starts: Seq<int>,
    ends: Seq<int>,
    stmts: Seq<Tree>,
)
    requires
        lines_of_outcomes(ts, end, starts, ends, all_parsed(stmts, ends)),
    ensures
        file(ts, end) == Ok::<Seq<Tree>, Seq<SyntaxError>>(stmts),
{
    lemma_every_failure_reported(ts, end, starts, ends, all_parsed(stmts, ends));
    lemma_all_parsed(stmts, ends);
}

/// Every error that a file reports points at one of its tokens or at the
/// end of the input.
pub proof fn lemma_file_errors_located(ts: Seq<(TokenKind, Span)>, end: usize, p: int)
    requires
        0 <= p <= ts.len(),
    ensures
        forall|k: int|
            0 <= k < file_from(ts, end, p).1.len() ==> located(ts, end, (#[trigger] file_from(ts, end, p).1[k]).1),
    decreases ts.len() - p,
{
    lemma_next_pos(ts, p, true);
    let q = next_pos(ts, p, true);
    if q < ts.len() {
        lemma_assignment_advances(ts, end, q, false);
        let (r, c1) = assignment(ts, end, q, false);
        match r {
            Ok(_) => {
                if p < c1 <= ts.len() {
                    lemma_file_errors_located(ts, end, c1);
                    assert(file_from(ts, end, p).1 == file_from(ts, end, c1).1);
                }
            },
            Err(e) => {
                assert(located(ts, end, e.1));
                lemma_sync_advances(ts, c1);
                let c2 = sync_to_newline(ts, c1);
                if p < c2 <= ts.len() {
                    assert(file_from(ts, end, p).1 == seq![e] + file_from(ts, end, c2).1);
                    lemma_file_errors_located(ts, end, c2);
                    let rest = file_from(ts, end, c2).1;
                    assert forall|k: int| 0 <= k < file_from(ts, end, p).1.len() implies located(
                        ts,
                        end,
                        (#[trigger] file_from(ts, end, p).1[k]).1,
                    ) by {
                        if k > 0 {
                            assert(file_from(ts, end, p).1[k] == rest[k - 1]);
                        } else {
                            assert(file_from(ts, end, p).1[k] == e);
                        }
                    }
                }
            },
        }
    }
}

/// The error of a single statement points at one of its tokens or at the
/// end of the input.
pub proof fn lemma_line_error_located(ts: Seq<(TokenKind, Span)>, end: usize)
    ensures
        line(ts, end) is Err ==> located(ts, end, line(ts, end)->Err_0.1),
{
    lemma_assignment_advances(ts, end, 0, false);
    lemma_abstraction_advances(ts, end, 0, false);
}

} // verus!
