//! The parser: it turns the tokens of a line into a syntax tree, by
//! precedence climbing.

use crate::lexer::{
    error_text, is_number_text, left, lemma_error_text_len, lemma_lex_at_bounds,
    lemma_number_token, lemma_run_end_is, lex_at, number_with_whole, Lexeme, Lexer, Op, Run, Sep,
    Token, TokenKind,
};
use crate::text::byte_offset;
use vstd::prelude::*;
use vstd::std_specs::convert::TryFromSpecImpl;
use vstd::string::*;

verus! {

/// A prefix operator.
#[derive(Debug, Clone, Copy, PartialEq, Eq, Structural)]
pub enum UnOp {
    /// `+x`
    Add,
    /// `-x`
    Sub,
}

/// An infix operator.
#[derive(Debug, Clone, Copy, PartialEq, Eq, Structural)]
pub enum BinOp {
    /// `x+y`
    Add,
    /// `x-y`
    Sub,
    /// `x*y`
    Mul,
    /// `x/y`
    Div,
    /// `x%y`
    Mod,
    /// `x^y`
    Pow,
}

/// The prefix operator that `op` stands for, if it is one.
pub open spec fn unary_of(op: Op) -> Option<UnOp> {
    match op {
        Op::Add => Some(UnOp::Add),
        Op::Sub => Some(UnOp::Sub),
        _ => None,
    }
}

/// The infix operator that `op` stands for, if it is one.
pub open spec fn binary_of(op: Op) -> Option<BinOp> {
    match op {
        Op::Add => Some(BinOp::Add),
        Op::Sub => Some(BinOp::Sub),
        Op::Mul => Some(BinOp::Mul),
        Op::Div => Some(BinOp::Div),
        Op::Mod => Some(BinOp::Mod),
        Op::Pow => Some(BinOp::Pow),
        Op::Eq => None,
    }
}

impl TryFrom<Op> for UnOp {
    type Error = &'static str;

    fn try_from(op: Op) -> (r: Result<Self, Self::Error>) {
        match op {
            Op::Add => Ok(UnOp::Add),
            Op::Sub => Ok(UnOp::Sub),
            _ => Err("Expected an unary operator such as + or -"),
        }
    }
}

impl TryFromSpecImpl<Op> for UnOp {
    open spec fn obeys_try_from_spec() -> bool {
        true
    }

    open spec fn try_from_spec(op: Op) -> Result<Self, Self::Error> {
        match unary_of(op) {
            Some(u) => Ok(u),
            None => Err("Expected an unary operator such as + or -"),
        }
    }
}

impl TryFrom<Op> for BinOp {
    type Error = &'static str;

    fn try_from(op: Op) -> (r: Result<Self, Self::Error>) {
        match op {
            Op::Add => Ok(BinOp::Add),
            Op::Sub => Ok(BinOp::Sub),
            Op::Mul => Ok(BinOp::Mul),
            Op::Div => Ok(BinOp::Div),
            Op::Mod => Ok(BinOp::Mod),
            Op::Pow => Ok(BinOp::Pow),
            Op::Eq => Err("Expected an binary operator such as +, -, *, *, % or ^"),
        }
    }
}

impl TryFromSpecImpl<Op> for BinOp {
    open spec fn obeys_try_from_spec() -> bool {
        true
    }

    open spec fn try_from_spec(op: Op) -> Result<Self, Self::Error> {
        match binary_of(op) {
            Some(b) => Ok(b),
            None => Err("Expected an binary operator such as +, -, *, *, % or ^"),
        }
    }
}

/// How tightly a prefix operator binds its operand.
pub open spec fn prefix_power(op: UnOp) -> nat {
    3
}

/// How tightly an infix operator binds its operands.
pub open spec fn infix_power(op: BinOp) -> nat {
    match op {
        BinOp::Add | BinOp::Sub => 1,
        BinOp::Mul | BinOp::Div | BinOp::Mod => 2,
        BinOp::Pow => 3,
    }
}

/// How tightly a prefix operator binds its operand.
pub fn prefix_binding_power(op: UnOp) -> (bp: u8)
    ensures
        bp == prefix_power(op),
{
    match op {
        UnOp::Add | UnOp::Sub => 3,
    }
}

/// How tightly an infix operator binds its operands.
pub fn infix_binding_power(op: BinOp) -> (bp: u8)
    ensures
        bp == infix_power(op),
{
    match op {
        BinOp::Add | BinOp::Sub => 1,
        BinOp::Mul | BinOp::Div | BinOp::Mod => 2,
        BinOp::Pow => 3,
    }
}

/// A number-valued expression.
#[derive(Debug, PartialEq)]
pub enum Literal<'a> {
    /// A number, by its digits as they are written.
    Nb(&'a str),
    /// A prefix operator and its operand.
    UnaryOp(UnOp, Box<Literal<'a>>),
    /// An infix operator and its two operands, left and right.
    BinaryOp(BinOp, Box<(Literal<'a>, Literal<'a>)>),
    /// A function's name and its argument.
    Fun(&'a str, Box<Literal<'a>>),
    /// A variable's name.
    Var(&'a str),
}

/// A part of a print expression.
#[derive(Debug, Clone, PartialEq)]
pub enum Print<'a> {
    /// An expression, whose value is printed.
    Literal(Literal<'a>),
    /// A text, printed as it is.
    Str(&'a str),
}

/// What a line asks for.
#[derive(Debug, Clone, PartialEq)]
pub enum Expression<'a> {
    /// A variable's name and the expression whose value it receives.
    Assign(&'a str, Literal<'a>),
    /// An expression alone.
    Literal(Literal<'a>),
    /// Texts and expressions, printed one after the other.
    Print(Vec<Print<'a>>),
}

/// A parsed line.
#[derive(Debug, Clone, PartialEq)]
pub enum Line<'a> {
    /// An expression.
    Expr(Expression<'a>),
    /// A comment, with the byte offset of its `#`.
    Comment(usize),
    /// Nothing but blanks.
    Empty,
}

/// A number-valued expression, as a value.
pub enum LiteralView {
    Nb(Seq<char>),
    UnaryOp(UnOp, Box<LiteralView>),
    BinaryOp(BinOp, Box<LiteralView>, Box<LiteralView>),
    Fun(Seq<char>, Box<LiteralView>),
    Var(Seq<char>),
}

/// A part of a print expression, as a value.
pub enum PrintView {
    Literal(LiteralView),
    Str(Seq<char>),
}

/// What a line asks for, as a value.
pub enum ExpressionView {
    Assign(Seq<char>, LiteralView),
    Literal(LiteralView),
    Print(Seq<PrintView>),
}

/// A parsed line, as a value.
pub enum LineView {
    Expr(ExpressionView),
    Comment(nat),
    Empty,
}

impl<'a> Literal<'a> {
    /// The expression as a value.
    pub open spec fn tree(&self) -> LiteralView
        decreases self,
    {
        match self {
            Literal::Nb(text) => LiteralView::Nb(text@),
            Literal::UnaryOp(op, operand) => LiteralView::UnaryOp(*op, Box::new(operand.tree())),
            Literal::BinaryOp(op, sides) => LiteralView::BinaryOp(
                *op,
                Box::new(sides.0.tree()),
                Box::new(sides.1.tree()),
            ),
            Literal::Fun(name, argument) => LiteralView::Fun(name@, Box::new(argument.tree())),
            Literal::Var(name) => LiteralView::Var(name@),
        }
    }
}

impl<'a> Clone for Literal<'a> {
    fn clone(&self) -> (copy: Self)
        ensures
            copy@ == self@,
        decreases self,
    {
        match self {
            Literal::Nb(text) => Literal::Nb(*text),
            Literal::UnaryOp(op, operand) => Literal::UnaryOp(*op, Box::new((**operand).clone())),
            Literal::BinaryOp(op, sides) => Literal::BinaryOp(
                *op,
                Box::new((sides.0.clone(), sides.1.clone())),
            ),
            Literal::Fun(name, argument) => Literal::Fun(*name, Box::new((**argument).clone())),
            Literal::Var(name) => Literal::Var(*name),
        }
    }
}

impl<'a> View for Literal<'a> {
    type V = LiteralView;

    open spec fn view(&self) -> LiteralView {
        self.tree()
    }
}

impl<'a> View for Print<'a> {
    type V = PrintView;

    open spec fn view(&self) -> PrintView {
        match self {
            Print::Literal(literal) => PrintView::Literal(literal@),
            Print::Str(text) => PrintView::Str(text@),
        }
    }
}

/// The parts of a print expression, as values.
pub open spec fn views<'a>(parts: Seq<Print<'a>>) -> Seq<PrintView> {
    Seq::new(parts.len(), |k: int| parts[k]@)
}

impl<'a> View for Expression<'a> {
    type V = ExpressionView;

    open spec fn view(&self) -> ExpressionView {
        match self {
            Expression::Assign(name, literal) => ExpressionView::Assign(name@, literal@),
            Expression::Literal(literal) => ExpressionView::Literal(literal@),
            Expression::Print(parts) => ExpressionView::Print(views(parts@)),
        }
    }
}

impl<'a> View for Line<'a> {
    type V = LineView;

    open spec fn view(&self) -> LineView {
        match self {
            Line::Expr(expression) => LineView::Expr(expression@),
            Line::Comment(at) => LineView::Comment(*at as nat),
            Line::Empty => LineView::Empty,
        }
    }
}

/// What parsing an expression gives: the expression and the number of
/// characters that it takes, or the error as it is shown.
pub type Parsed = Result<(LiteralView, nat), Seq<char>>;

/// Number of characters from index `i` to index `j`.
pub open spec fn used(i: nat, j: int) -> nat {
    if j >= i {
        (j - i) as nat
    } else {
        0
    }
}

/// The characters of `s` that the token `t` covers.
pub open spec fn text_of(s: Seq<char>, t: Lexeme) -> Seq<char> {
    s.subrange(t.first, t.past)
}

/// The error `msg` shown under the token `t` of `s`.
pub open spec fn error_at(s: Seq<char>, t: Lexeme, msg: Seq<char>) -> Seq<char> {
    error_text(
        msg,
        s,
        byte_offset(s, t.first),
        (byte_offset(s, t.past) - byte_offset(s, t.first)) as nat,
    )
}

/// The error `msg` shown under the byte that follows the token `t` of `s`.
pub open spec fn error_after(s: Seq<char>, t: Lexeme, msg: Seq<char>) -> Seq<char> {
    error_text(msg, s, byte_offset(s, t.past), 1)
}

/// Said of a token that cannot stand where it is found.
pub open spec fn incomplete_expression() -> Seq<char> {
    "Incomplete expression"@
}

/// Said where a parenthesis is not closed.
pub open spec fn missing_block_end() -> Seq<char> {
    "Missing block end ')'"@
}

/// Said where the argument of a function is not closed.
pub open spec fn missing_call_end() -> Seq<char> {
    "Missing function invocation end ')'"@
}

/// Said of an operator that is no prefix operator, where an operand is due.
pub open spec fn expected_unary() -> Seq<char> {
    "Expected an unary operator such as + or -"@
}

/// Said of a string without its closing quote.
pub open spec fn missing_string_end() -> Seq<char> {
    "Missing string end, '\"' is missing"@
}

/// The infix operator that a token of kind `kind` is, if it is one.
pub open spec fn infix_of(kind: TokenKind) -> Option<BinOp> {
    match kind {
        TokenKind::Op(op) => binary_of(op),
        _ => None,
    }
}

/// The group or call that began at `i` and whose inside `inner` ends at `j`:
/// a closing parenthesis must follow.
pub open spec fn parse_close(s: Seq<char>, i: nat, inner: LiteralView, j: nat, msg: Seq<char>)
    -> Parsed {
    let close = lex_at(s, j as int);
    if close.kind == TokenKind::Sep(Sep::Close) {
        Ok((inner, used(i, close.past)))
    } else {
        Err(error_at(s, close, msg))
    }
}

/// An expression at index `i` whose infix operators all bind more tightly
/// than `min_bp`: an operand, then as many such operators with their right
/// sides as follow.
pub open spec fn parse_literal(s: Seq<char>, i: nat, min_bp: nat) -> Parsed
    decreases left(s, i), 2nat,
{
    match parse_operand(s, i) {
        Ok((lhs, n)) => match parse_tail(s, lhs, i + n, min_bp) {
            Ok((literal, m)) => Ok((literal, n + m)),
            Err(e) => Err(e),
        },
        Err(e) => Err(e),
    }
}

/// An operand at index `i`: a number, a group in parentheses, a function
/// call, a variable, or a prefix operator with its operand.
pub open spec fn parse_operand(s: Seq<char>, i: nat) -> Parsed
    decreases left(s, i), 1nat,
{
    let t = lex_at(s, i as int);
    match t.kind {
        TokenKind::Nb => Ok((LiteralView::Nb(text_of(s, t)), used(i, t.past))),
        TokenKind::Sep(Sep::Open) => {
            proof {
                lemma_lex_at_bounds(s, i as int);
            }
            match parse_literal(s, t.past as nat, 0) {
                Ok((inner, n)) => parse_close(
                    s,
                    i,
                    inner,
                    t.past as nat + n,
                    missing_block_end(),
                ),
                Err(e) => Err(e),
            }
        },
        TokenKind::Id => {
            let open = lex_at(s, t.past);
            if open.kind == TokenKind::Sep(Sep::Open) {
                proof {
                    lemma_lex_at_bounds(s, i as int);
                    lemma_lex_at_bounds(s, t.past);
                }
                match parse_literal(s, open.past as nat, 0) {
                    Ok((argument, n)) => parse_close(
                        s,
                        i,
                        LiteralView::Fun(text_of(s, t), Box::new(argument)),
                        open.past as nat + n,
                        missing_call_end(),
                    ),
                    Err(e) => Err(e),
                }
            } else {
                Ok((LiteralView::Var(text_of(s, t)), used(i, t.past)))
            }
        },
        TokenKind::Op(op) => match unary_of(op) {
            Some(unary) => {
                proof {
                    lemma_lex_at_bounds(s, i as int);
                }
                match parse_literal(s, t.past as nat, prefix_power(unary)) {
                    Ok((operand, n)) => Ok(
                        (LiteralView::UnaryOp(unary, Box::new(operand)), used(i, t.past) + n),
                    ),
                    Err(e) => Err(e),
                }
            },
            None => Err(error_at(s, t, expected_unary())),
        },
        _ => Err(error_at(s, t, incomplete_expression())),
    }
}

/// What follows the operand `lhs` from index `i` on: while an infix operator
/// that binds more tightly than `min_bp` comes next, it takes `lhs` as its
/// left side and the expression behind it, bound at the operator's own power,
/// as its right side. Operators of equal power thus group to the left.
pub open spec fn parse_tail(s: Seq<char>, lhs: LiteralView, i: nat, min_bp: nat) -> Parsed
    decreases left(s, i), 0nat,
{
    let t = lex_at(s, i as int);
    match infix_of(t.kind) {
        Some(op) => if infix_power(op) > min_bp {
            proof {
                lemma_lex_at_bounds(s, i as int);
            }
            match parse_literal(s, t.past as nat, infix_power(op)) {
                Ok((rhs, n)) => match parse_tail(
                    s,
                    LiteralView::BinaryOp(op, Box::new(lhs), Box::new(rhs)),
                    t.past as nat + n,
                    min_bp,
                ) {
                    Ok((literal, m)) => Ok((literal, used(i, t.past) + n + m)),
                    Err(e) => Err(e),
                },
                Err(e) => Err(e),
            }
        } else {
            Ok((lhs, 0))
        },
        None => Ok((lhs, 0)),
    }
}

/// An expression takes at least one character and ends inside the line.
pub proof fn lemma_parse_literal_advances(s: Seq<char>, i: nat, min_bp: nat)
    requires
        i <= s.len(),
    ensures
        match parse_literal(s, i, min_bp) {
            Ok((_, n)) => 1 <= n && i + n <= s.len(),
            Err(_) => true,
        },
    decreases left(s, i), 2nat,
{
    lemma_parse_operand_advances(s, i);
    match parse_operand(s, i) {
        Ok((lhs, n)) => {
            lemma_parse_tail_advances(s, lhs, i + n, min_bp);
        },
        Err(_) => {},
    }
}

/// An operand takes at least one character and ends inside the line.
pub proof fn lemma_parse_operand_advances(s: Seq<char>, i: nat)
    requires
        i <= s.len(),
    ensures
        match parse_operand(s, i) {
            Ok((_, n)) => 1 <= n && i + n <= s.len(),
            Err(_) => true,
        },
    decreases left(s, i), 1nat,
{
    let t = lex_at(s, i as int);
    lemma_lex_at_bounds(s, i as int);
    match t.kind {
        TokenKind::Sep(Sep::Open) => {
            lemma_parse_literal_advances(s, t.past as nat, 0);
            match parse_literal(s, t.past as nat, 0) {
                Ok((_, n)) => {
                    lemma_lex_at_bounds(s, t.past + n);
                },
                Err(_) => {},
            }
        },
        TokenKind::Id => {
            let open = lex_at(s, t.past);
            lemma_lex_at_bounds(s, t.past);
            if open.kind == TokenKind::Sep(Sep::Open) {
                lemma_parse_literal_advances(s, open.past as nat, 0);
                match parse_literal(s, open.past as nat, 0) {
                    Ok((_, n)) => {
                        lemma_lex_at_bounds(s, open.past + n);
                    },
                    Err(_) => {},
                }
            }
        },
        TokenKind::Op(op) => match unary_of(op) {
            Some(unary) => {
                lemma_parse_literal_advances(s, t.past as nat, prefix_power(unary));
            },
            None => {},
        },
        _ => {},
    }
}

/// What follows an operand ends inside the line.
pub proof fn lemma_parse_tail_advances(s: Seq<char>, lhs: LiteralView, i: nat, min_bp: nat)
    requires
        i <= s.len(),
    ensures
        match parse_tail(s, lhs, i, min_bp) {
            Ok((_, n)) => i + n <= s.len(),
            Err(_) => true,
        },
    decreases left(s, i), 0nat,
{
    let t = lex_at(s, i as int);
    lemma_lex_at_bounds(s, i as int);
    match infix_of(t.kind) {
        Some(op) => {
            if infix_power(op) > min_bp {
                lemma_parse_literal_advances(s, t.past as nat, infix_power(op));
                match parse_literal(s, t.past as nat, infix_power(op)) {
                    Ok((rhs, n)) => {
                        lemma_parse_tail_advances(
                            s,
                            LiteralView::BinaryOp(op, Box::new(lhs), Box::new(rhs)),
                            t.past as nat + n,
                            min_bp,
                        );
                    },
                    Err(_) => {},
                }
            }
        },
        None => {},
    }
}

/// Whether the string token `t` of `s` has its closing quote.
pub open spec fn is_closed(s: Seq<char>, t: Lexeme) -> bool {
    t.past - t.first >= 2 && s[t.past - 1] == '"'
}

/// The text between the quotes of the closed string token `t` of `s`.
pub open spec fn unquoted(s: Seq<char>, t: Lexeme) -> Seq<char> {
    s.subrange(t.first + 1, t.past - 1)
}

/// `parts` before the parts that `rest` holds, if it holds any.
pub open spec fn parts_then(parts: Seq<PrintView>, rest: Result<Seq<PrintView>, Seq<char>>)
    -> Result<Seq<PrintView>, Seq<char>> {
    match rest {
        Ok(more) => Ok(parts + more),
        Err(e) => Err(e),
    }
}

/// The parts of a print expression from index `i` to the end of the line:
/// each string gives its text, and what stands between strings is read as an
/// expression.
pub open spec fn print_parts(s: Seq<char>, i: nat) -> Result<Seq<PrintView>, Seq<char>>
    decreases left(s, i),
{
    let t = lex_at(s, i as int);
    match t.kind {
        TokenKind::Eof => Ok(Seq::empty()),
        TokenKind::Str => if is_closed(s, t) {
            proof {
                lemma_lex_at_bounds(s, i as int);
            }
            parts_then(seq![PrintView::Str(unquoted(s, t))], print_parts(s, t.past as nat))
        } else {
            Err(error_after(s, t, missing_string_end()))
        },
        _ => match parse_literal(s, i, 0) {
            Ok((literal, n)) => {
                proof {
                    lemma_lex_at_bounds(s, i as int);
                    lemma_parse_literal_advances(s, i, 0);
                }
                parts_then(seq![PrintView::Literal(literal)], print_parts(s, i + n))
            },
            Err(e) => Err(e),
        },
    }
}

/// The line whose expression `e` ends at index `j`: nothing may follow it.
pub open spec fn parse_end(s: Seq<char>, j: nat, e: ExpressionView) -> Result<LineView, Seq<char>> {
    let t = lex_at(s, j as int);
    if t.kind == TokenKind::Eof {
        Ok(LineView::Expr(e))
    } else {
        Err(error_at(s, t, incomplete_expression()))
    }
}

/// The line that a lexer at index `i` of `s` has before it. A `#` makes it a
/// comment and the end of the line makes it empty. A string begins a print
/// expression. An identifier followed by `=` begins an assignment; without
/// the `=` the lexer starts over and the whole line is read as an
/// expression, as is every other line.
pub open spec fn parse_line(s: Seq<char>, i: nat) -> Result<LineView, Seq<char>> {
    let t = lex_at(s, i as int);
    match t.kind {
        TokenKind::Sep(Sep::Comment) => Ok(LineView::Comment(byte_offset(s, t.first))),
        TokenKind::Eof => Ok(LineView::Empty),
        TokenKind::Str => match print_parts(s, i) {
            Ok(parts) => Ok(LineView::Expr(ExpressionView::Print(parts))),
            Err(e) => Err(e),
        },
        TokenKind::Id => {
            let eq = lex_at(s, t.past);
            if eq.kind == TokenKind::Op(Op::Eq) {
                match parse_literal(s, eq.past as nat, 0) {
                    Ok((literal, n)) => parse_end(
                        s,
                        eq.past as nat + n,
                        ExpressionView::Assign(text_of(s, t), literal),
                    ),
                    Err(e) => Err(e),
                }
            } else {
                match parse_literal(s, 0, 0) {
                    Ok((literal, n)) => parse_end(s, n, ExpressionView::Literal(literal)),
                    Err(e) => Err(e),
                }
            }
        },
        _ => match parse_literal(s, i, 0) {
            Ok((literal, n)) => parse_end(s, i + n, ExpressionView::Literal(literal)),
            Err(e) => Err(e),
        },
    }
}

/// `r` with `k` more characters taken.
pub open spec fn shift(r: Parsed, k: nat) -> Parsed {
    match r {
        Ok((literal, n)) => Ok((literal, n + k)),
        Err(e) => Err(e),
    }
}

/// The token if it is of the kind `kind`, and the error `msg` under it if
/// it is not.
pub fn expect_kind<'a, 'b>(token: Token<'a>, kind: TokenKind, msg: &'b str) -> (r: Result<
    Token<'a>,
    String,
>)
    ensures
        token@.kind == kind ==> r is Ok && r->Ok_0@ == token@,
        token@.kind != kind ==> r is Err && r->Err_0@ == error_text(
            msg@,
            token@.source,
            token@.start as nat,
            (token@.end - token@.start) as nat,
        ),
{
    if token.kind() != kind {
        Err(token.err_there(msg))
    } else {
        Ok(token)
    }
}

/// The infix operator that a token of kind `kind` is, if it is one.
pub fn infix_operator(kind: TokenKind) -> (r: Option<BinOp>)
    ensures
        r == infix_of(kind),
{
    match kind {
        TokenKind::Op(op) => {
            let converted: Result<BinOp, &'static str> = BinOp::try_from(op);
            match converted {
                Ok(binary) => Some(binary),
                Err(_) => None,
            }
        },
        _ => None,
    }
}

/// Parses an expression whose infix operators all bind more tightly than
/// `min_bp`, and leaves the lexer behind it.
pub fn parser_literal<'a>(lexer: &mut Lexer<'a>, min_bp: u8) -> (r: Result<Literal<'a>, String>)
    ensures
        final(lexer)@.source == old(lexer)@.source,
        match parse_literal(old(lexer)@.source, old(lexer)@.cursor as nat, min_bp as nat) {
            Ok((literal, n)) => r is Ok && r->Ok_0@ == literal && final(lexer)@.cursor == old(
                lexer,
            )@.cursor + n,
            Err(e) => r is Err && r->Err_0@ == e,
        },
    decreases left(old(lexer)@.source, old(lexer)@.cursor as nat),
{
    let ghost s = lexer@.source;
    let ghost i = lexer@.cursor as nat;
    let token = lexer.next();
    proof {
        lemma_lex_at_bounds(s, i as int);
    }
    let ghost t = lex_at(s, i as int);
    let mut lhs = match token.kind() {
        TokenKind::Nb => Literal::Nb(token.splice()),
        TokenKind::Sep(Sep::Open) => {
            let inner = match parser_literal(lexer, 0) {
                Ok(inner) => inner,
                Err(e) => {
                    return Err(e);
                },
            };
            proof {
                lemma_parse_literal_advances(s, t.past as nat, 0);
            }
            let close = lexer.next();
            match expect_kind(close, TokenKind::Sep(Sep::Close), "Missing block end ')'") {
                Ok(_) => {},
                Err(e) => {
                    return Err(e);
                },
            }
            inner
        },
        TokenKind::Id => {
            let id = token.splice();
            let follows = lexer.peek().kind();
            if follows == TokenKind::Sep(Sep::Open) {
                proof {
                    lemma_lex_at_bounds(s, t.past);
                }
                let ghost open = lex_at(s, t.past);
                lexer.next();
                let argument = match parser_literal(lexer, 0) {
                    Ok(argument) => argument,
                    Err(e) => {
                        return Err(e);
                    },
                };
                proof {
                    lemma_parse_literal_advances(s, open.past as nat, 0);
                }
                let close = lexer.next();
                match expect_kind(
                    close,
                    TokenKind::Sep(Sep::Close),
                    "Missing function invocation end ')'",
                ) {
                    Ok(_) => {},
                    Err(e) => {
                        return Err(e);
                    },
                }
                Literal::Fun(id, Box::new(argument))
            } else {
                Literal::Var(id)
            }
        },
        TokenKind::Op(op) => {
            let converted: Result<UnOp, &'static str> = UnOp::try_from(op);
            match converted {
                Ok(unary) => {
                    let operand = match parser_literal(lexer, prefix_binding_power(unary)) {
                        Ok(operand) => operand,
                        Err(e) => {
                            return Err(e);
                        },
                    };
                    Literal::UnaryOp(unary, Box::new(operand))
                },
                Err(err) => {
                    return Err(token.err_there(err));
                },
            }
        },
        _ => {
            return Err(token.err_there("Incomplete expression"));
        },
    };
    proof {
        lemma_parse_operand_advances(s, i);
    }
    assert(parse_operand(s, i) == Ok::<(LiteralView, nat), Seq<char>>(
        (lhs@, (lexer@.cursor - i) as nat),
    ));
    loop
        invariant
            s == old(lexer)@.source,
            i == old(lexer)@.cursor,
            lexer@.source == s,
            i <= lexer@.cursor <= s.len(),
            parse_literal(s, i, min_bp as nat) == shift(
                parse_tail(s, lhs@, lexer@.cursor as nat, min_bp as nat),
                (lexer@.cursor - i) as nat,
            ),
        decreases left(s, lexer@.cursor as nat),
    {
        let ghost j = lexer@.cursor as nat;
        let ghost before = lhs@;
        let kind = lexer.peek().kind();
        proof {
            lemma_lex_at_bounds(s, j as int);
        }
        let op = match infix_operator(kind) {
            Some(op) => op,
            None => {
                return Ok(lhs);
            },
        };
        let bp = infix_binding_power(op);
        if bp <= min_bp {
            return Ok(lhs);
        }
        lexer.next();
        let ghost u = lex_at(s, j as int);
        let rhs = match parser_literal(lexer, bp) {
            Ok(rhs) => rhs,
            Err(e) => {
                return Err(e);
            },
        };
        proof {
            lemma_parse_literal_advances(s, u.past as nat, bp as nat);
        }
        lhs = Literal::BinaryOp(op, Box::new((lhs, rhs)));
    }
}

/// Parts put before parts that are put before a result come before it
/// together.
pub proof fn lemma_parts_then_twice(
    a: Seq<PrintView>,
    b: Seq<PrintView>,
    rest: Result<Seq<PrintView>, Seq<char>>,
)
    ensures
        parts_then(a, parts_then(b, rest)) == parts_then(a + b, rest),
{
    match rest {
        Ok(more) => {
            assert(a + (b + more) =~= (a + b) + more);
        },
        Err(_) => {},
    }
}

/// No parts put before a result leave it as it is.
pub proof fn lemma_parts_then_none(rest: Result<Seq<PrintView>, Seq<char>>)
    ensures
        parts_then(Seq::empty(), rest) == rest,
{
    match rest {
        Ok(more) => {
            assert(Seq::<PrintView>::empty() + more =~= more);
        },
        Err(_) => {},
    }
}

/// The views of parts with one more part at their end.
pub proof fn lemma_views_push<'a>(parts: Seq<Print<'a>>, part: Print<'a>)
    ensures
        views(parts.push(part)) == views(parts) + seq![part@],
{
    assert(views(parts.push(part)) =~= views(parts) + seq![part@]);
}

/// The text between the quotes of the string token `token`, or the error
/// under the byte behind it if its closing quote is missing.
pub fn string_part<'a>(token: &Token<'a>) -> (r: Result<Print<'a>, String>)
    ensures
        match r {
            Ok(part) => token@.past - token@.first >= 2 && token@.source[token@.past - 1] == '"'
                && part@ == PrintView::Str(
                token@.source.subrange(token@.first + 1, token@.past - 1),
            ),
            Err(e) => !(token@.past - token@.first >= 2 && token@.source[token@.past - 1] == '"')
                && e@ == error_text(missing_string_end(), token@.source, token@.end as nat, 1),
        },
{
    let text = token.splice();
    let n = text.unicode_len();
    if n < 2 || text.get_char(n - 1) != '"' {
        let after = token.after();
        let e = after.err_there("Missing string end, '\"' is missing");
        assert(e@ == error_text(missing_string_end(), token@.source, token@.end as nat, 1));
        return Err(e);
    }
    let inner = text.substring_char(1, n - 1);
    assert(inner@ =~= token@.source.subrange(token@.first + 1, token@.past - 1));
    Ok(Print::Str(inner))
}

/// Parses the parts of a print expression up to the end of the line, and
/// leaves the lexer before that end.
pub fn parse_print<'a>(lexer: &mut Lexer<'a>) -> (r: Result<Vec<Print<'a>>, String>)
    ensures
        final(lexer)@.source == old(lexer)@.source,
        match print_parts(old(lexer)@.source, old(lexer)@.cursor as nat) {
            Ok(parts) => r is Ok && views(r->Ok_0@) == parts && lex_at(
                final(lexer)@.source,
                final(lexer)@.cursor,
            ).kind == TokenKind::Eof,
            Err(e) => r is Err && r->Err_0@ == e,
        },
{
    let ghost s = lexer@.source;
    let ghost i = lexer@.cursor as nat;
    let mut buf: Vec<Print<'a>> = Vec::new();
    proof {
        assert(views(buf@) =~= Seq::<PrintView>::empty());
        lemma_parts_then_none(print_parts(s, i));
    }
    loop
        invariant
            s == old(lexer)@.source,
            i == old(lexer)@.cursor as nat,
            lexer@.source == s,
            print_parts(s, i) == parts_then(views(buf@), print_parts(s, lexer@.cursor as nat)),
        decreases left(s, lexer@.cursor as nat),
    {
        let ghost j = lexer@.cursor as nat;
        let ghost done = buf@;
        let token = lexer.peek();
        let ghost t = lex_at(s, j as int);
        proof {
            lemma_lex_at_bounds(s, j as int);
        }
        let kind = token.kind();
        if kind == TokenKind::Eof {
            proof {
                assert(views(done) + Seq::<PrintView>::empty() =~= views(done));
            }
            return Ok(buf);
        }
        let part = if kind == TokenKind::Str {
            let part = match string_part(token) {
                Ok(part) => part,
                Err(e) => {
                    return Err(e);
                },
            };
            lexer.next();
            part
        } else {
            let literal = match parser_literal(lexer, 0) {
                Ok(literal) => literal,
                Err(e) => {
                    return Err(e);
                },
            };
            proof {
                lemma_parse_literal_advances(s, j, 0);
            }
            Print::Literal(literal)
        };
        let ghost k = lexer@.cursor as nat;
        assert(print_parts(s, j) == parts_then(seq![part@], print_parts(s, k)));
        buf.push(part);
        proof {
            lemma_views_push(done, part);
            lemma_parts_then_twice(views(done), seq![part@], print_parts(s, k));
        }
    }
}

/// Parses the line that the lexer has before it.
pub fn parse<'a>(lexer: Lexer<'a>) -> (r: Result<Line<'a>, String>)
    ensures
        match parse_line(lexer@.source, lexer@.cursor as nat) {
            Ok(line) => r is Ok && r->Ok_0@ == line,
            Err(e) => r is Err && r->Err_0@ == e,
        },
{
    let mut lexer = lexer;
    let ghost s = lexer@.source;
    let ghost i = lexer@.cursor as nat;
    let peek = lexer.peek();
    let kind = peek.kind();
    let start = peek.span().start;
    proof {
        lemma_lex_at_bounds(s, i as int);
    }
    let ghost t = lex_at(s, i as int);
    match kind {
        TokenKind::Sep(Sep::Comment) => Ok(Line::Comment(start)),
        TokenKind::Eof => Ok(Line::Empty),
        _ => {
            let expr = match kind {
                TokenKind::Str => match parse_print(&mut lexer) {
                    Ok(parts) => Expression::Print(parts),
                    Err(e) => {
                        return Err(e);
                    },
                },
                TokenKind::Id => {
                    let id = lexer.next().splice();
                    proof {
                        lemma_lex_at_bounds(s, t.past);
                    }
                    let second = lexer.next().kind();
                    if second == TokenKind::Op(Op::Eq) {
                        let ghost eq = lex_at(s, t.past);
                        match parser_literal(&mut lexer, 0) {
                            Ok(literal) => {
                                proof {
                                    lemma_parse_literal_advances(s, eq.past as nat, 0);
                                }
                                Expression::Assign(id, literal)
                            },
                            Err(e) => {
                                return Err(e);
                            },
                        }
                    } else {
                        lexer.reset();
                        match parser_literal(&mut lexer, 0) {
                            Ok(literal) => {
                                proof {
                                    lemma_parse_literal_advances(s, 0, 0);
                                }
                                Expression::Literal(literal)
                            },
                            Err(e) => {
                                return Err(e);
                            },
                        }
                    }
                },
                _ => match parser_literal(&mut lexer, 0) {
                    Ok(literal) => {
                        proof {
                            lemma_parse_literal_advances(s, i, 0);
                        }
                        Expression::Literal(literal)
                    },
                    Err(e) => {
                        return Err(e);
                    },
                },
            };
            let last = lexer.next();
            match expect_kind(last, TokenKind::Eof, "Incomplete expression") {
                Ok(_) => Ok(Line::Expr(expr)),
                Err(e) => Err(e),
            }
        },
    }
}

/// Whether every number in `literal` is written as a number.
pub open spec fn numbers_written(literal: LiteralView) -> bool
    decreases literal,
{
    match literal {
        LiteralView::Nb(text) => is_number_text(text),
        LiteralView::UnaryOp(_, operand) => numbers_written(*operand),
        LiteralView::BinaryOp(_, left, right) => numbers_written(*left) && numbers_written(*right),
        LiteralView::Fun(_, argument) => numbers_written(*argument),
        LiteralView::Var(_) => true,
    }
}

/// Every number in a parsed expression is written as a number: digits, at
/// least one, which one dot and further digits may follow.
pub proof fn lemma_parse_literal_numbers(s: Seq<char>, i: nat, min_bp: nat)
    requires
        i <= s.len(),
    ensures
        match parse_literal(s, i, min_bp) {
            Ok((literal, _)) => numbers_written(literal),
            Err(_) => true,
        },
    decreases left(s, i), 2nat,
{
    lemma_parse_operand_numbers(s, i);
    lemma_parse_operand_advances(s, i);
    match parse_operand(s, i) {
        Ok((lhs, n)) => {
            lemma_parse_tail_numbers(s, lhs, i + n, min_bp);
        },
        Err(_) => {},
    }
}

/// Every number in a parsed operand is written as a number.
pub proof fn lemma_parse_operand_numbers(s: Seq<char>, i: nat)
    requires
        i <= s.len(),
    ensures
        match parse_operand(s, i) {
            Ok((literal, _)) => numbers_written(literal),
            Err(_) => true,
        },
    decreases left(s, i), 1nat,
{
    let t = lex_at(s, i as int);
    lemma_lex_at_bounds(s, i as int);
    match t.kind {
        TokenKind::Nb => {
            lemma_number_token(s, i as int);
        },
        TokenKind::Sep(Sep::Open) => {
            lemma_parse_literal_numbers(s, t.past as nat, 0);
        },
        TokenKind::Id => {
            let open = lex_at(s, t.past);
            lemma_lex_at_bounds(s, t.past);
            if open.kind == TokenKind::Sep(Sep::Open) {
                lemma_parse_literal_numbers(s, open.past as nat, 0);
            }
        },
        TokenKind::Op(op) => match unary_of(op) {
            Some(unary) => {
                lemma_parse_literal_numbers(s, t.past as nat, prefix_power(unary));
            },
            None => {},
        },
        _ => {},
    }
}

/// Every number in what follows an operand is written as a number, if
/// those of the operand are.
pub proof fn lemma_parse_tail_numbers(s: Seq<char>, lhs: LiteralView, i: nat, min_bp: nat)
    requires
        i <= s.len(),
        numbers_written(lhs),
    ensures
        match parse_tail(s, lhs, i, min_bp) {
            Ok((literal, _)) => numbers_written(literal),
            Err(_) => true,
        },
    decreases left(s, i), 0nat,
{
    let t = lex_at(s, i as int);
    lemma_lex_at_bounds(s, i as int);
    match infix_of(t.kind) {
        Some(op) => {
            if infix_power(op) > min_bp {
                lemma_parse_literal_numbers(s, t.past as nat, infix_power(op));
                lemma_parse_literal_advances(s, t.past as nat, infix_power(op));
                match parse_literal(s, t.past as nat, infix_power(op)) {
                    Ok((rhs, n)) => {
                        lemma_parse_tail_numbers(
                            s,
                            LiteralView::BinaryOp(op, Box::new(lhs), Box::new(rhs)),
                            t.past as nat + n,
                            min_bp,
                        );
                    },
                    Err(_) => {},
                }
            }
        },
        None => {},
    }
}

/// A line that is a number and nothing else is parsed as that number, with
/// its text as it is written.
pub proof fn lemma_number_line(d: Seq<char>)
    requires
        is_number_text(d),
    ensures
        parse_line(d, 0) == Ok::<LineView, Seq<char>>(
            LineView::Expr(ExpressionView::Literal(LiteralView::Nb(d))),
        ),
{
    reveal(lex_at);
    let k = choose|k: int| number_with_whole(d, k);
    let n = d.len() as int;
    lemma_run_end_is(d, 0, 0, Run::Blanks);
    lemma_run_end_is(d, 1, k, Run::Digits);
    if k < n {
        lemma_run_end_is(d, k + 1, n, Run::Digits);
    }
    let t = lex_at(d, 0);
    assert(t.kind == TokenKind::Nb && t.first == 0 && t.past == n);
    assert(text_of(d, t) =~= d);
    lemma_run_end_is(d, n, n, Run::Blanks);
    assert(lex_at(d, n).kind == TokenKind::Eof);
    let lhs = LiteralView::Nb(d);
    assert(parse_operand(d, 0) == Ok::<(LiteralView, nat), Seq<char>>((lhs, n as nat)));
    assert(parse_tail(d, lhs, n as nat, 0) == Ok::<(LiteralView, nat), Seq<char>>((lhs, 0)));
    assert(parse_literal(d, 0, 0) == Ok::<(LiteralView, nat), Seq<char>>((lhs, n as nat)));
}

/// An error under or behind a token is never empty.
pub proof fn lemma_error_at_len(s: Seq<char>, t: Lexeme, msg: Seq<char>)
    ensures
        error_at(s, t, msg).len() > 0,
        error_after(s, t, msg).len() > 0,
{
    lemma_error_text_len(
        msg,
        s,
        byte_offset(s, t.first),
        (byte_offset(s, t.past) - byte_offset(s, t.first)) as nat,
    );
    lemma_error_text_len(msg, s, byte_offset(s, t.past), 1);
}

/// The error of an expression that cannot be parsed is never empty.
pub proof fn lemma_parse_literal_error(s: Seq<char>, i: nat, min_bp: nat)
    requires
        i <= s.len(),
    ensures
        match parse_literal(s, i, min_bp) {
            Ok(_) => true,
            Err(e) => e.len() > 0,
        },
    decreases left(s, i), 2nat,
{
    lemma_parse_operand_error(s, i);
    lemma_parse_operand_advances(s, i);
    match parse_operand(s, i) {
        Ok((lhs, n)) => {
            lemma_parse_tail_error(s, lhs, i + n, min_bp);
        },
        Err(_) => {},
    }
}

/// The error of an operand that cannot be parsed is never empty.
pub proof fn lemma_parse_operand_error(s: Seq<char>, i: nat)
    requires
        i <= s.len(),
    ensures
        match parse_operand(s, i) {
            Ok(_) => true,
            Err(e) => e.len() > 0,
        },
    decreases left(s, i), 1nat,
{
    let t = lex_at(s, i as int);
    lemma_lex_at_bounds(s, i as int);
    lemma_error_at_len(s, t, expected_unary());
    lemma_error_at_len(s, t, incomplete_expression());
    match t.kind {
        TokenKind::Sep(Sep::Open) => {
            lemma_parse_literal_error(s, t.past as nat, 0);
            match parse_literal(s, t.past as nat, 0) {
                Ok((_, n)) => {
                    lemma_error_at_len(s, lex_at(s, t.past + n), missing_block_end());
                },
                Err(_) => {},
            }
        },
        TokenKind::Id => {
            let open = lex_at(s, t.past);
            lemma_lex_at_bounds(s, t.past);
            if open.kind == TokenKind::Sep(Sep::Open) {
                lemma_parse_literal_error(s, open.past as nat, 0);
                match parse_literal(s, open.past as nat, 0) {
                    Ok((_, n)) => {
                        lemma_error_at_len(s, lex_at(s, open.past + n), missing_call_end());
                    },
                    Err(_) => {},
                }
            }
        },
        TokenKind::Op(op) => match unary_of(op) {
            Some(unary) => {
                lemma_parse_literal_error(s, t.past as nat, prefix_power(unary));
            },
            None => {},
        },
        _ => {},
    }
}

/// The error of what follows an operand, if it cannot be parsed, is never
/// empty.
pub proof fn lemma_parse_tail_error(s: Seq<char>, lhs: LiteralView, i: nat, min_bp: nat)
    requires
        i <= s.len(),
    ensures
        match parse_tail(s, lhs, i, min_bp) {
            Ok(_) => true,
            Err(e) => e.len() > 0,
        },
    decreases left(s, i), 0nat,
{
    let t = lex_at(s, i as int);
    lemma_lex_at_bounds(s, i as int);
    match infix_of(t.kind) {
        Some(op) => {
            if infix_power(op) > min_bp {
                lemma_parse_literal_error(s, t.past as nat, infix_power(op));
                lemma_parse_literal_advances(s, t.past as nat, infix_power(op));
                match parse_literal(s, t.past as nat, infix_power(op)) {
                    Ok((rhs, n)) => {
                        lemma_parse_tail_error(
                            s,
                            LiteralView::BinaryOp(op, Box::new(lhs), Box::new(rhs)),
                            t.past as nat + n,
                            min_bp,
                        );
                    },
                    Err(_) => {},
                }
            }
        },
        None => {},
    }
}

/// The error of a print expression that cannot be parsed is never empty.
pub proof fn lemma_print_parts_error(s: Seq<char>, i: nat)
    requires
        i <= s.len(),
    ensures
        match print_parts(s, i) {
            Ok(_) => true,
            Err(e) => e.len() > 0,
        },
    decreases left(s, i),
{
    let t = lex_at(s, i as int);
    lemma_lex_at_bounds(s, i as int);
    lemma_error_at_len(s, t, missing_string_end());
    match t.kind {
        TokenKind::Eof => {},
        TokenKind::Str => {
            if is_closed(s, t) {
                lemma_print_parts_error(s, t.past as nat);
            }
        },
        _ => {
            lemma_parse_literal_error(s, i, 0);
            lemma_parse_literal_advances(s, i, 0);
            match parse_literal(s, i, 0) {
                Ok((_, n)) => {
                    lemma_print_parts_error(s, i + n);
                },
                Err(_) => {},
            }
        },
    }
}

/// The error of a line that cannot be parsed is never empty.
pub proof fn lemma_parse_line_error(s: Seq<char>, i: nat)
    requires
        i <= s.len(),
    ensures
        match parse_line(s, i) {
            Ok(_) => true,
            Err(e) => e.len() > 0,
        },
{
    let t = lex_at(s, i as int);
    lemma_lex_at_bounds(s, i as int);
    lemma_print_parts_error(s, i);
    lemma_parse_literal_error(s, i, 0);
    lemma_parse_literal_error(s, 0, 0);
    match parse_literal(s, i, 0) {
        Ok((_, n)) => {
            lemma_error_at_len(s, lex_at(s, (i + n) as int), incomplete_expression());
        },
        Err(_) => {},
    }
    match parse_literal(s, 0, 0) {
        Ok((_, n)) => {
            lemma_error_at_len(s, lex_at(s, n as int), incomplete_expression());
        },
        Err(_) => {},
    }
    if t.kind == TokenKind::Id {
        let eq = lex_at(s, t.past);
        lemma_lex_at_bounds(s, t.past);
        lemma_parse_literal_error(s, eq.past as nat, 0);
        match parse_literal(s, eq.past as nat, 0) {
            Ok((_, n)) => {
                lemma_error_at_len(s, lex_at(s, eq.past + n), incomplete_expression());
            },
            Err(_) => {},
        }
    }
}

} // verus!
