//! Blanks around a line: they change neither its syntax tree nor what it
//! asks for.

use crate::interpreter::plan_source;
use crate::lexer::{
    lemma_blanks_skipped, lemma_lex_at_bounds, lemma_run_end, lemma_run_end_is, left, lex_at,
    lex_from, number_end, run_end, string_end, Lexeme, Op, Run, Sep, TokenKind,
};
use crate::parser::{
    infix_of, infix_power, is_closed, lemma_parse_literal_advances, lemma_parse_operand_advances,
    missing_block_end, missing_call_end, parse_close, parse_end, parse_line, parse_literal,
    parse_operand, parse_tail, prefix_power, print_parts, shift, text_of, unary_of, unquoted,
    ExpressionView, LiteralView,
};
use crate::text::{is_blank, is_ident_part};
use vstd::prelude::*;

verus! {

/// The token `t`, `k` characters further on.
pub open spec fn moved(t: Lexeme, k: int) -> Lexeme {
    Lexeme { kind: t.kind, first: t.first + k, past: t.past + k }
}

/// Whether every character of `b` is blank.
pub open spec fn all_blank(b: Seq<char>) -> bool {
    forall|k: int| 0 <= k < b.len() ==> is_blank(#[trigger] b[k])
}

/// Behind a prefix, a run ends where it ended without it.
pub proof fn lemma_run_end_shift(b: Seq<char>, s: Seq<char>, i: int, run: Run)
    requires
        0 <= i <= s.len(),
    ensures
        run_end(b + s, b.len() + i, run) == b.len() + run_end(s, i, run),
    decreases s.len() - i,
{
    if i < s.len() {
        assert((b + s)[b.len() + i] == s[i]);
        if run.holds(s[i]) {
            lemma_run_end_shift(b, s, i + 1, run);
        }
    }
}

/// Behind a prefix, a lexer finds the token that it found without it.
pub proof fn lemma_lex_at_shift(b: Seq<char>, s: Seq<char>, i: int)
    requires
        0 <= i <= s.len(),
    ensures
        lex_at(b + s, b.len() + i) == moved(lex_at(s, i), b.len() as int),
{
    reveal(lex_at);
    let k = b.len() as int;
    let w = b + s;
    lemma_run_end_shift(b, s, i, Run::Blanks);
    lemma_run_end(s, i, Run::Blanks);
    let start = run_end(s, i, Run::Blanks);
    if start < s.len() {
        assert(w[k + start] == s[start]);
        lemma_run_end_shift(b, s, start + 1, Run::Digits);
        lemma_run_end_shift(b, s, start + 1, Run::Name);
        lemma_run_end_shift(b, s, start + 1, Run::Quoted);
        lemma_run_end(s, start + 1, Run::Digits);
        let whole = run_end(s, start + 1, Run::Digits);
        if whole < s.len() {
            assert(w[k + whole] == s[whole]);
            lemma_run_end_shift(b, s, whole + 1, Run::Digits);
        }
        assert(number_end(w, k + start) == k + number_end(s, start));
        assert(string_end(w, k + start) == k + string_end(s, start));
        assert(lex_from(w, k + start) == moved(lex_from(s, start), k));
    }
}

/// Behind a prefix, a token covers the characters that it covered without
/// it.
pub proof fn lemma_text_shift(b: Seq<char>, s: Seq<char>, first: int, past: int)
    requires
        0 <= first <= past <= s.len(),
    ensures
        (b + s).subrange(b.len() + first, b.len() + past) == s.subrange(first, past),
{
    assert((b + s).subrange(b.len() + first, b.len() + past) =~= s.subrange(first, past));
}

/// Behind a prefix, an expression is parsed as it was without it.
pub proof fn lemma_parse_literal_shift(b: Seq<char>, s: Seq<char>, i: nat, min_bp: nat)
    requires
        i <= s.len(),
    ensures
        parse_literal(s, i, min_bp) is Ok ==> parse_literal(b + s, b.len() + i, min_bp)
            == parse_literal(s, i, min_bp),
    decreases left(s, i), 3nat,
{
    lemma_parse_operand_shift(b, s, i);
    lemma_parse_operand_advances(s, i);
    match parse_operand(s, i) {
        Ok((lhs, n)) => {
            lemma_parse_tail_shift(b, s, lhs, i + n, min_bp);
        },
        Err(_) => {},
    }
}

/// Behind a prefix, a group or call is closed as it was without it.
pub proof fn lemma_parse_close_shift(
    b: Seq<char>,
    s: Seq<char>,
    i: nat,
    inner: LiteralView,
    j: nat,
    msg: Seq<char>,
)
    requires
        j <= s.len(),
    ensures
        parse_close(s, i, inner, j, msg) is Ok ==> parse_close(
            b + s,
            b.len() + i,
            inner,
            b.len() + j,
            msg,
        ) == parse_close(s, i, inner, j, msg),
{
    lemma_lex_at_shift(b, s, j as int);
}

/// Behind a prefix, an operand is parsed as it was without it.
pub proof fn lemma_parse_operand_shift(b: Seq<char>, s: Seq<char>, i: nat)
    requires
        i <= s.len(),
    ensures
        parse_operand(s, i) is Ok ==> parse_operand(b + s, b.len() + i) == parse_operand(s, i),
    decreases left(s, i), 2nat,
{
    let t = lex_at(s, i as int);
    lemma_lex_at_bounds(s, i as int);
    lemma_lex_at_shift(b, s, i as int);
    lemma_text_shift(b, s, t.first, t.past);
    match t.kind {
        TokenKind::Sep(Sep::Open) => {
            lemma_parse_group_shift(b, s, i);
        },
        TokenKind::Id => {
            lemma_parse_name_shift(b, s, i);
        },
        TokenKind::Op(op) => match unary_of(op) {
            Some(unary) => {
                lemma_parse_literal_shift(b, s, t.past as nat, prefix_power(unary));
            },
            None => {},
        },
        _ => {},
    }
}

/// Behind a prefix, a group in parentheses is parsed as it was without it.
pub proof fn lemma_parse_group_shift(b: Seq<char>, s: Seq<char>, i: nat)
    requires
        i <= s.len(),
        lex_at(s, i as int).kind == TokenKind::Sep(Sep::Open),
    ensures
        parse_operand(s, i) is Ok ==> parse_operand(b + s, b.len() + i) == parse_operand(s, i),
    decreases left(s, i), 1nat,
{
    let t = lex_at(s, i as int);
    lemma_lex_at_bounds(s, i as int);
    lemma_lex_at_shift(b, s, i as int);
    lemma_parse_literal_shift(b, s, t.past as nat, 0);
    lemma_parse_literal_advances(s, t.past as nat, 0);
    match parse_literal(s, t.past as nat, 0) {
        Ok((inner, n)) => {
            lemma_parse_close_shift(b, s, i, inner, t.past as nat + n, missing_block_end());
        },
        Err(_) => {},
    }
}

/// Behind a prefix, a variable or a call is parsed as it was without it.
pub proof fn lemma_parse_name_shift(b: Seq<char>, s: Seq<char>, i: nat)
    requires
        i <= s.len(),
        lex_at(s, i as int).kind == TokenKind::Id,
    ensures
        parse_operand(s, i) is Ok ==> parse_operand(b + s, b.len() + i) == parse_operand(s, i),
    decreases left(s, i), 1nat,
{
    let t = lex_at(s, i as int);
    lemma_lex_at_bounds(s, i as int);
    lemma_lex_at_shift(b, s, i as int);
    lemma_text_shift(b, s, t.first, t.past);
    let open = lex_at(s, t.past);
    lemma_lex_at_bounds(s, t.past);
    lemma_lex_at_shift(b, s, t.past);
    if open.kind == TokenKind::Sep(Sep::Open) {
        lemma_parse_literal_shift(b, s, open.past as nat, 0);
        lemma_parse_literal_advances(s, open.past as nat, 0);
        match parse_literal(s, open.past as nat, 0) {
            Ok((argument, n)) => {
                lemma_parse_close_shift(
                    b,
                    s,
                    i,
                    LiteralView::Fun(text_of(s, t), Box::new(argument)),
                    open.past as nat + n,
                    missing_call_end(),
                );
            },
            Err(_) => {},
        }
    }
}

/// Behind a prefix, what follows an operand is parsed as it was without it.
pub proof fn lemma_parse_tail_shift(
    b: Seq<char>,
    s: Seq<char>,
    lhs: LiteralView,
    i: nat,
    min_bp: nat,
)
    requires
        i <= s.len(),
    ensures
        parse_tail(s, lhs, i, min_bp) is Ok ==> parse_tail(b + s, lhs, b.len() + i, min_bp)
            == parse_tail(s, lhs, i, min_bp),
    decreases left(s, i), 0nat,
{
    let t = lex_at(s, i as int);
    lemma_lex_at_bounds(s, i as int);
    lemma_lex_at_shift(b, s, i as int);
    match infix_of(t.kind) {
        Some(op) => {
            if infix_power(op) > min_bp {
                lemma_parse_literal_shift(b, s, t.past as nat, infix_power(op));
                lemma_parse_literal_advances(s, t.past as nat, infix_power(op));
                match parse_literal(s, t.past as nat, infix_power(op)) {
                    Ok((rhs, n)) => {
                        lemma_parse_tail_shift(
                            b,
                            s,
                            LiteralView::BinaryOp(op, Box::new(lhs), Box::new(rhs)),
                            t.past as nat + n,
                            min_bp,
                        );
                    },
                    Err(_) => {},
                }
            }
        },
        None => {},
    }
}

/// Behind a prefix, a print expression is parsed as it was without it.
pub proof fn lemma_print_parts_shift(b: Seq<char>, s: Seq<char>, i: nat)
    requires
        i <= s.len(),
    ensures
        print_parts(s, i) is Ok ==> print_parts(b + s, b.len() + i) == print_parts(s, i),
    decreases left(s, i),
{
    let k = b.len() as int;
    let w = b + s;
    let t = lex_at(s, i as int);
    lemma_lex_at_bounds(s, i as int);
    lemma_lex_at_shift(b, s, i as int);
    match t.kind {
        TokenKind::Eof => {},
        TokenKind::Str => {
            if is_closed(s, t) {
                assert(w[k + t.past - 1] == s[t.past - 1]);
                lemma_text_shift(b, s, t.first + 1, t.past - 1);
                assert(unquoted(w, moved(t, k)) == unquoted(s, t));
                lemma_print_parts_shift(b, s, t.past as nat);
            }
        },
        _ => {
            lemma_parse_literal_shift(b, s, i, 0);
            lemma_parse_literal_advances(s, i, 0);
            match parse_literal(s, i, 0) {
                Ok((_, n)) => {
                    lemma_print_parts_shift(b, s, i + n);
                },
                Err(_) => {},
            }
        },
    }
}

/// Blanks before an operand are taken with it and change nothing else.
pub proof fn lemma_parse_operand_from_blanks(s: Seq<char>, i: nat, j: nat)
    requires
        i <= j <= s.len(),
        forall|k: int| i <= k < j ==> is_blank(#[trigger] s[k]),
    ensures
        parse_operand(s, i) == shift(parse_operand(s, j), (j - i) as nat),
{
    lemma_blanks_skipped(s, i as int, j as int);
    let t = lex_at(s, j as int);
    lemma_lex_at_bounds(s, j as int);
    match t.kind {
        TokenKind::Sep(Sep::Open) => {
            lemma_parse_literal_advances(s, t.past as nat, 0);
            match parse_literal(s, t.past as nat, 0) {
                Ok((_, n)) => {
                    lemma_lex_at_bounds(s, t.past + n);
                },
                Err(_) => {},
            }
        },
        TokenKind::Id => {
            let open = lex_at(s, t.past);
            lemma_lex_at_bounds(s, t.past);
            if open.kind == TokenKind::Sep(Sep::Open) {
                lemma_parse_literal_advances(s, open.past as nat, 0);
                match parse_literal(s, open.past as nat, 0) {
                    Ok((_, n)) => {
                        lemma_lex_at_bounds(s, open.past + n);
                    },
                    Err(_) => {},
                }
            }
        },
        _ => {},
    }
}

/// Blanks before an expression are taken with it and change nothing else.
pub proof fn lemma_parse_literal_from_blanks(s: Seq<char>, i: nat, j: nat, min_bp: nat)
    requires
        i <= j <= s.len(),
        forall|k: int| i <= k < j ==> is_blank(#[trigger] s[k]),
    ensures
        parse_literal(s, i, min_bp) == shift(parse_literal(s, j, min_bp), (j - i) as nat),
{
    lemma_parse_operand_from_blanks(s, i, j);
}

/// Blanks before a line change neither its syntax tree nor, where it is a
/// comment, that it is one.
pub proof fn lemma_parse_line_after_blanks(b: Seq<char>, s: Seq<char>)
    requires
        all_blank(b),
        parse_line(s, 0) is Ok,
    ensures
        parse_line(b + s, 0) is Ok,
        parse_line(s, 0)->Ok_0 is Comment ==> parse_line(b + s, 0)->Ok_0 is Comment,
        !(parse_line(s, 0)->Ok_0 is Comment) ==> parse_line(b + s, 0) == parse_line(s, 0),
{
    let k = b.len();
    let w = b + s;
    assert forall|x: int| 0 <= x < k implies is_blank(#[trigger] w[x]) by {
        assert(w[x] == b[x]);
    }
    lemma_blanks_skipped(w, 0, k as int);
    lemma_lex_at_shift(b, s, 0);
    let t = lex_at(s, 0);
    lemma_lex_at_bounds(s, 0);
    lemma_text_shift(b, s, t.first, t.past);
    match t.kind {
        TokenKind::Sep(Sep::Comment) => {},
        TokenKind::Eof => {},
        TokenKind::Str => {
            lemma_print_parts_shift(b, s, 0);
            lemma_print_parts_from_blanks(w, k);
        },
        TokenKind::Id => {
            let eq = lex_at(s, t.past);
            lemma_lex_at_bounds(s, t.past);
            lemma_lex_at_shift(b, s, t.past);
            if eq.kind == TokenKind::Op(Op::Eq) {
                lemma_parse_literal_shift(b, s, eq.past as nat, 0);
                lemma_parse_literal_advances(s, eq.past as nat, 0);
                match parse_literal(s, eq.past as nat, 0) {
                    Ok((_, n)) => {
                        lemma_lex_at_shift(b, s, eq.past + n);
                    },
                    Err(_) => {},
                }
            } else {
                lemma_expression_line_after_blanks(b, s);
            }
        },
        _ => {
            lemma_expression_line_after_blanks(b, s);
        },
    }
}

/// A print expression that begins with a string is the same from the
/// blanks before it.
pub proof fn lemma_print_parts_from_blanks(s: Seq<char>, j: nat)
    requires
        j <= s.len(),
        forall|k: int| 0 <= k < j ==> is_blank(#[trigger] s[k]),
        lex_at(s, j as int).kind == TokenKind::Str,
    ensures
        print_parts(s, 0) == print_parts(s, j),
{
    lemma_blanks_skipped(s, 0, j as int);
}

/// Blanks before a line that is an expression alone change nothing.
pub proof fn lemma_expression_line_after_blanks(b: Seq<char>, s: Seq<char>)
    requires
        all_blank(b),
    ensures
        match parse_literal(s, 0, 0) {
            Ok((literal, n)) => parse_literal(b + s, 0, 0) == Ok::<(LiteralView, nat), Seq<char>>(
                (literal, n + b.len()),
            ) && parse_end(b + s, n + b.len(), ExpressionView::Literal(literal)) is Ok
                == parse_end(s, n, ExpressionView::Literal(literal)) is Ok,
            Err(_) => true,
        },
{
    let k = b.len();
    let w = b + s;
    assert forall|x: int| 0 <= x < k implies is_blank(#[trigger] w[x]) by {
        assert(w[x] == b[x]);
    }
    lemma_parse_literal_from_blanks(w, 0, k, 0);
    lemma_parse_literal_shift(b, s, 0, 0);
    lemma_parse_literal_advances(s, 0, 0);
    match parse_literal(s, 0, 0) {
        Ok((_, n)) => {
            lemma_lex_at_shift(b, s, n as int);
        },
        Err(_) => {},
    }
}

/// Blanks before a line change nothing of what it asks for.
pub proof fn lemma_leading_blanks(ctx: Map<Seq<char>, u64>, b: Seq<char>, s: Seq<char>)
    requires
        all_blank(b),
        plan_source(ctx, s) is Ok,
    ensures
        plan_source(ctx, b + s) == plan_source(ctx, s),
{
    lemma_parse_line_after_blanks(b, s);
}

/// Whether every character of `b` is blank and continues no identifier.
pub open spec fn all_separating(b: Seq<char>) -> bool {
    forall|k: int| 0 <= k < b.len() ==> is_blank(#[trigger] b[k]) && !is_ident_part(b[k])
}

/// A run that ends inside a line ends there whatever follows the line.
pub proof fn lemma_run_end_inside(s: Seq<char>, b: Seq<char>, i: int, run: Run)
    requires
        0 <= i <= s.len(),
        run_end(s, i, run) < s.len(),
    ensures
        run_end(s + b, i, run) == run_end(s, i, run),
    decreases s.len() - i,
{
    if i < s.len() {
        assert((s + b)[i] == s[i]);
        if run.holds(s[i]) {
            lemma_run_end_inside(s, b, i + 1, run);
        }
    }
}

/// A run ends where it ended if none of the characters that follow the
/// line is in its class.
pub proof fn lemma_run_end_append(s: Seq<char>, b: Seq<char>, i: int, run: Run)
    requires
        0 <= i <= s.len(),
        forall|k: int| 0 <= k < b.len() ==> !run.holds(#[trigger] b[k]),
    ensures
        run_end(s + b, i, run) == run_end(s, i, run),
    decreases s.len() - i,
{
    if i < s.len() {
        assert((s + b)[i] == s[i]);
        if run.holds(s[i]) {
            lemma_run_end_append(s, b, i + 1, run);
        }
    } else if b.len() > 0 {
        assert((s + b)[i] == b[0]);
    }
}

/// Blanks that reach the end of a line reach the end of the blanks that
/// follow it.
pub proof fn lemma_blanks_append(s: Seq<char>, b: Seq<char>, i: int)
    requires
        0 <= i <= s.len(),
        all_blank(b),
        run_end(s, i, Run::Blanks) >= s.len(),
    ensures
        run_end(s + b, i, Run::Blanks) == s.len() + b.len(),
{
    let w = s + b;
    lemma_run_end(s, i, Run::Blanks);
    assert forall|j: int| i <= j < w.len() implies Run::Blanks.holds(#[trigger] w[j]) by {
        if j < s.len() {
            assert(w[j] == s[j]);
        } else {
            assert(w[j] == b[j - s.len()]);
        }
    }
    lemma_run_end_is(w, i, w.len() as int, Run::Blanks);
}

/// Whether the token `t` of `s` ends by itself: every token does but the
/// end of the line, a string without its closing quote, and what begins
/// with a character that begins no token.
pub open spec fn ends_by_itself(s: Seq<char>, t: Lexeme) -> bool {
    match t.kind {
        TokenKind::Nb => true,
        TokenKind::Op(_) => true,
        TokenKind::Id => true,
        TokenKind::Sep(_) => true,
        TokenKind::Str => is_closed(s, t),
        TokenKind::Error => false,
        TokenKind::Eof => false,
    }
}

/// With separating blanks behind the line, a lexer finds a token of the
/// kind that it found without them, and the same token if it ends by
/// itself.
pub proof fn lemma_lex_at_append(s: Seq<char>, b: Seq<char>, i: int)
    requires
        0 <= i <= s.len(),
        all_separating(b),
    ensures
        lex_at(s + b, i).kind == lex_at(s, i).kind,
        ends_by_itself(s, lex_at(s, i)) ==> lex_at(s + b, i) == lex_at(s, i),
{
    reveal(lex_at);
    let w = s + b;
    lemma_run_end(s, i, Run::Blanks);
    let start = run_end(s, i, Run::Blanks);
    if start < s.len() {
        lemma_run_end_inside(s, b, i, Run::Blanks);
        assert(w[start] == s[start]);
        let c = s[start];
        lemma_run_end(s, start + 1, Run::Quoted);
        let quote = run_end(s, start + 1, Run::Quoted);
        if quote < s.len() {
            lemma_run_end_inside(s, b, start + 1, Run::Quoted);
        }
        lemma_run_end_append(s, b, start + 1, Run::Name);
        lemma_run_end_append(s, b, start + 1, Run::Digits);
        lemma_run_end(s, start + 1, Run::Digits);
        let whole = run_end(s, start + 1, Run::Digits);
        if whole < s.len() {
            assert(w[whole] == s[whole]);
            lemma_run_end_append(s, b, whole + 1, Run::Digits);
        } else if b.len() > 0 {
            assert(w[whole] == b[0]);
        }
        assert(number_end(w, start) == number_end(s, start));
    } else {
        lemma_blanks_append(s, b, i);
    }
}

/// With separating blanks behind the line, an expression is parsed as it
/// was without them.
pub proof fn lemma_parse_literal_append(s: Seq<char>, b: Seq<char>, i: nat, min_bp: nat)
    requires
        i <= s.len(),
        all_separating(b),
    ensures
        parse_literal(s, i, min_bp) is Ok ==> parse_literal(s + b, i, min_bp) == parse_literal(
            s,
            i,
            min_bp,
        ),
    decreases left(s, i), 3nat,
{
    lemma_parse_operand_append(s, b, i);
    lemma_parse_operand_advances(s, i);
    match parse_operand(s, i) {
        Ok((lhs, n)) => {
            lemma_parse_tail_append(s, b, lhs, i + n, min_bp);
        },
        Err(_) => {},
    }
}

/// With separating blanks behind the line, a token covers the characters
/// that it covered without them.
pub proof fn lemma_text_append(s: Seq<char>, b: Seq<char>, first: int, past: int)
    requires
        0 <= first <= past <= s.len(),
    ensures
        (s + b).subrange(first, past) == s.subrange(first, past),
{
    assert((s + b).subrange(first, past) =~= s.subrange(first, past));
}

/// With separating blanks behind the line, a group or call is closed as it
/// was without them.
pub proof fn lemma_parse_close_append(
    s: Seq<char>,
    b: Seq<char>,
    i: nat,
    inner: LiteralView,
    j: nat,
    msg: Seq<char>,
)
    requires
        j <= s.len(),
        all_separating(b),
    ensures
        parse_close(s, i, inner, j, msg) is Ok ==> parse_close(s + b, i, inner, j, msg)
            == parse_close(s, i, inner, j, msg),
{
    lemma_lex_at_append(s, b, j as int);
}

/// With separating blanks behind the line, an operand is parsed as it was
/// without them.
pub proof fn lemma_parse_operand_append(s: Seq<char>, b: Seq<char>, i: nat)
    requires
        i <= s.len(),
        all_separating(b),
    ensures
        parse_operand(s, i) is Ok ==> parse_operand(s + b, i) == parse_operand(s, i),
    decreases left(s, i), 2nat,
{
    let t = lex_at(s, i as int);
    lemma_lex_at_bounds(s, i as int);
    lemma_lex_at_append(s, b, i as int);
    lemma_text_append(s, b, t.first, t.past);
    match t.kind {
        TokenKind::Sep(Sep::Open) => {
            lemma_parse_group_append(s, b, i);
        },
        TokenKind::Id => {
            lemma_parse_name_append(s, b, i);
        },
        TokenKind::Op(op) => match unary_of(op) {
            Some(unary) => {
                lemma_parse_literal_append(s, b, t.past as nat, prefix_power(unary));
            },
            None => {},
        },
        _ => {},
    }
}

/// With separating blanks behind the line, a group in parentheses is
/// parsed as it was without them.
pub proof fn lemma_parse_group_append(s: Seq<char>, b: Seq<char>, i: nat)
    requires
        i <= s.len(),
        all_separating(b),
        lex_at(s, i as int).kind == TokenKind::Sep(Sep::Open),
    ensures
        parse_operand(s, i) is Ok ==> parse_operand(s + b, i) == parse_operand(s, i),
    decreases left(s, i), 1nat,
{
    let t = lex_at(s, i as int);
    lemma_lex_at_bounds(s, i as int);
    lemma_lex_at_append(s, b, i as int);
    lemma_parse_literal_append(s, b, t.past as nat, 0);
    lemma_parse_literal_advances(s, t.past as nat, 0);
    match parse_literal(s, t.past as nat, 0) {
        Ok((inner, n)) => {
            lemma_parse_close_append(s, b, i, inner, t.past as nat + n, missing_block_end());
        },
        Err(_) => {},
    }
}

/// With separating blanks behind the line, a variable or a call is parsed
/// as it was without them.
pub proof fn lemma_parse_name_append(s: Seq<char>, b: Seq<char>, i: nat)
    requires
        i <= s.len(),
        all_separating(b),
        lex_at(s, i as int).kind == TokenKind::Id,
    ensures
        parse_operand(s, i) is Ok ==> parse_operand(s + b, i) == parse_operand(s, i),
    decreases left(s, i), 1nat,
{
    let t = lex_at(s, i as int);
    lemma_lex_at_bounds(s, i as int);
    lemma_lex_at_append(s, b, i as int);
    lemma_text_append(s, b, t.first, t.past);
    let open = lex_at(s, t.past);
    lemma_lex_at_bounds(s, t.past);
    lemma_lex_at_append(s, b, t.past);
    if open.kind == TokenKind::Sep(Sep::Open) {
        lemma_parse_literal_append(s, b, open.past as nat, 0);
        lemma_parse_literal_advances(s, open.past as nat, 0);
        match parse_literal(s, open.past as nat, 0) {
            Ok((argument, n)) => {
                lemma_parse_close_append(
                    s,
                    b,
                    i,
                    LiteralView::Fun(text_of(s, t), Box::new(argument)),
                    open.past as nat + n,
                    missing_call_end(),
                );
            },
            Err(_) => {},
        }
    }
}

/// With separating blanks behind the line, what follows an operand is
/// parsed as it was without them.
pub proof fn lemma_parse_tail_append(
    s: Seq<char>,
    b: Seq<char>,
    lhs: LiteralView,
    i: nat,
    min_bp: nat,
)
    requires
        i <= s.len(),
        all_separating(b),
    ensures
        parse_tail(s, lhs, i, min_bp) is Ok ==> parse_tail(s + b, lhs, i, min_bp) == parse_tail(
            s,
            lhs,
            i,
            min_bp,
        ),
    decreases left(s, i), 0nat,
{
    let t = lex_at(s, i as int);
    lemma_lex_at_bounds(s, i as int);
    lemma_lex_at_append(s, b, i as int);
    match infix_of(t.kind) {
        Some(op) => {
            if infix_power(op) > min_bp {
                lemma_parse_literal_append(s, b, t.past as nat, infix_power(op));
                lemma_parse_literal_advances(s, t.past as nat, infix_power(op));
                match parse_literal(s, t.past as nat, infix_power(op)) {
                    Ok((rhs, n)) => {
                        lemma_parse_tail_append(
                            s,
                            b,
                            LiteralView::BinaryOp(op, Box::new(lhs), Box::new(rhs)),
                            t.past as nat + n,
                            min_bp,
                        );
                    },
                    Err(_) => {},
                }
            }
        },
        None => {},
    }
}

/// With separating blanks behind the line, a print expression is parsed as
/// it was without them.
pub proof fn lemma_print_parts_append(s: Seq<char>, b: Seq<char>, i: nat)
    requires
        i <= s.len(),
        all_separating(b),
    ensures
        print_parts(s, i) is Ok ==> print_parts(s + b, i) == print_parts(s, i),
    decreases left(s, i),
{
    let w = s + b;
    let t = lex_at(s, i as int);
    lemma_lex_at_bounds(s, i as int);
    lemma_lex_at_append(s, b, i as int);
    match t.kind {
        TokenKind::Eof => {},
        TokenKind::Str => {
            if is_closed(s, t) {
                assert(w[t.past - 1] == s[t.past - 1]);
                lemma_text_append(s, b, t.first + 1, t.past - 1);
                lemma_print_parts_append(s, b, t.past as nat);
            }
        },
        _ => {
            lemma_parse_literal_append(s, b, i, 0);
            lemma_parse_literal_advances(s, i, 0);
            match parse_literal(s, i, 0) {
                Ok((_, n)) => {
                    lemma_print_parts_append(s, b, i + n);
                },
                Err(_) => {},
            }
        },
    }
}

/// Separating blanks behind a line change nothing of its syntax tree.
pub proof fn lemma_parse_line_before_blanks(s: Seq<char>, b: Seq<char>)
    requires
        all_separating(b),
        parse_line(s, 0) is Ok,
    ensures
        parse_line(s + b, 0) == parse_line(s, 0),
{
    let w = s + b;
    let t = lex_at(s, 0);
    lemma_lex_at_bounds(s, 0);
    lemma_lex_at_append(s, b, 0);
    lemma_text_append(s, b, t.first, t.past);
    match t.kind {
        TokenKind::Sep(Sep::Comment) => {
            assert(w.take(t.first) =~= s.take(t.first));
        },
        TokenKind::Eof => {},
        TokenKind::Str => {
            lemma_print_parts_append(s, b, 0);
        },
        TokenKind::Id => {
            let eq = lex_at(s, t.past);
            lemma_lex_at_bounds(s, t.past);
            lemma_lex_at_append(s, b, t.past);
            if eq.kind == TokenKind::Op(Op::Eq) {
                lemma_parse_literal_append(s, b, eq.past as nat, 0);
                lemma_parse_literal_advances(s, eq.past as nat, 0);
                match parse_literal(s, eq.past as nat, 0) {
                    Ok((_, n)) => {
                        lemma_lex_at_append(s, b, eq.past + n);
                    },
                    Err(_) => {},
                }
            } else {
                lemma_parse_literal_append(s, b, 0, 0);
                lemma_parse_literal_advances(s, 0, 0);
                match parse_literal(s, 0, 0) {
                    Ok((_, n)) => {
                        lemma_lex_at_append(s, b, n as int);
                    },
                    Err(_) => {},
                }
            }
        },
        _ => {
            lemma_parse_literal_append(s, b, 0, 0);
            lemma_parse_literal_advances(s, 0, 0);
            match parse_literal(s, 0, 0) {
                Ok((_, n)) => {
                    lemma_lex_at_append(s, b, n as int);
                },
                Err(_) => {},
            }
        },
    }
}

/// Separating blanks behind a line change nothing of what it asks for.
pub proof fn lemma_trailing_blanks(ctx: Map<Seq<char>, u64>, s: Seq<char>, b: Seq<char>)
    requires
        all_separating(b),
        plan_source(ctx, s) is Ok,
    ensures
        plan_source(ctx, s + b) == plan_source(ctx, s),
{
    lemma_parse_line_before_blanks(s, b);
}

/// Blanks around a line change nothing of what it asks for: a line that
/// asks for something asks for the same with blanks before it and
/// separating blanks behind it.
pub proof fn lemma_blanks_around(
    ctx: Map<Seq<char>, u64>,
    before: Seq<char>,
    s: Seq<char>,
    behind: Seq<char>,
)
    requires
        all_blank(before),
        all_separating(behind),
        plan_source(ctx, s) is Ok,
    ensures
        plan_source(ctx, before + s + behind) == plan_source(ctx, s),
{
    lemma_leading_blanks(ctx, before, s);
    lemma_trailing_blanks(ctx, before + s, behind);
}

} // verus!
