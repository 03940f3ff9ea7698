use tml::lexer::{tokenize, Lexer, Op, Sep, TokenKind};
use tml::parser::{
    expect_kind, infix_binding_power, infix_operator, parse, parse_print, parser_literal,
    prefix_binding_power, string_part, BinOp, Expression, Line, Literal, Print, UnOp,
};

fn nb(text: &str) -> Literal<'_> {
    Literal::Nb(text)
}

fn bin<'a>(op: BinOp, l: Literal<'a>, r: Literal<'a>) -> Literal<'a> {
    Literal::BinaryOp(op, Box::new((l, r)))
}

fn literal(source: &str) -> Result<Line<'_>, String> {
    parse(Lexer::load(source))
}

fn tree(l: Literal<'_>) -> Result<Line<'_>, String> {
    Ok(Line::Expr(Expression::Literal(l)))
}

#[test]
fn lines_are_told_apart() {
    assert_eq!(literal(""), Ok(Line::Empty));
    assert_eq!(literal("  \t"), Ok(Line::Empty));
    assert_eq!(literal("# c"), Ok(Line::Comment(0)));
    assert_eq!(literal("  # 1 +"), Ok(Line::Comment(2)));
    assert_eq!(literal("\u{3000}#"), Ok(Line::Comment(3)));
    assert_eq!(literal("1"), tree(nb("1")));
    assert_eq!(literal("x"), tree(Literal::Var("x")));
    assert_eq!(literal("x = 1"), Ok(Line::Expr(Expression::Assign("x", nb("1")))));
    assert_eq!(literal("\"a\""), Ok(Line::Expr(Expression::Print(vec![Print::Str("a")]))));
}

#[test]
fn operators_bind_by_their_power() {
    assert_eq!(
        literal("2+3*4"),
        tree(bin(BinOp::Add, nb("2"), bin(BinOp::Mul, nb("3"), nb("4"))))
    );
    assert_eq!(
        literal("2*3+4"),
        tree(bin(BinOp::Add, bin(BinOp::Mul, nb("2"), nb("3")), nb("4")))
    );
    assert_eq!(
        literal("2*3^2"),
        tree(bin(BinOp::Mul, nb("2"), bin(BinOp::Pow, nb("3"), nb("2"))))
    );
    assert_eq!(
        literal("1-2-3"),
        tree(bin(BinOp::Sub, bin(BinOp::Sub, nb("1"), nb("2")), nb("3")))
    );
    assert_eq!(
        literal("10^2^2"),
        tree(bin(BinOp::Pow, bin(BinOp::Pow, nb("10"), nb("2")), nb("2")))
    );
    assert_eq!(
        literal("8/4%3"),
        tree(bin(BinOp::Mod, bin(BinOp::Div, nb("8"), nb("4")), nb("3")))
    );
    assert_eq!(
        literal("(1+2)*3"),
        tree(bin(BinOp::Mul, bin(BinOp::Add, nb("1"), nb("2")), nb("3")))
    );
}

#[test]
fn prefix_operators_bind_tightly() {
    assert_eq!(literal("-1"), tree(Literal::UnaryOp(UnOp::Sub, Box::new(nb("1")))));
    assert_eq!(
        literal("+-1"),
        tree(Literal::UnaryOp(
            UnOp::Add,
            Box::new(Literal::UnaryOp(UnOp::Sub, Box::new(nb("1"))))
        ))
    );
    assert_eq!(
        literal("-1+2"),
        tree(bin(BinOp::Add, Literal::UnaryOp(UnOp::Sub, Box::new(nb("1"))), nb("2")))
    );
    assert_eq!(
        literal("-2^2"),
        tree(bin(BinOp::Pow, Literal::UnaryOp(UnOp::Sub, Box::new(nb("2"))), nb("2")))
    );
    assert_eq!(
        literal("2*-x"),
        tree(bin(BinOp::Mul, nb("2"), Literal::UnaryOp(UnOp::Sub, Box::new(Literal::Var("x")))))
    );
}

#[test]
fn calls_and_variables() {
    assert_eq!(literal("f(1)"), tree(Literal::Fun("f", Box::new(nb("1")))));
    assert_eq!(literal("f (1)"), tree(Literal::Fun("f", Box::new(nb("1")))));
    assert_eq!(
        literal("f(g(x)+1)"),
        tree(Literal::Fun(
            "f",
            Box::new(bin(
                BinOp::Add,
                Literal::Fun("g", Box::new(Literal::Var("x"))),
                nb("1")
            ))
        ))
    );
    assert_eq!(
        literal("a_1 * é"),
        tree(bin(BinOp::Mul, Literal::Var("a_1"), Literal::Var("é")))
    );
    assert_eq!(
        literal("x = f(2)"),
        Ok(Line::Expr(Expression::Assign("x", Literal::Fun("f", Box::new(nb("2"))))))
    );
    assert_eq!(
        literal("f(2) = x"),
        Err("Incomplete expression\nf(2) = x\n     ^".to_string())
    );
}

#[test]
fn number_lines_keep_their_text() {
    for text in ["0", "12345", "12345.", "123.45", "007.100"] {
        assert_eq!(literal(text), tree(nb(text)));
    }
    assert_eq!(literal("  42  "), tree(nb("42")));
}

#[test]
fn print_parts_interleave() {
    assert_eq!(
        literal("\"A\"3\"B\""),
        Ok(Line::Expr(Expression::Print(vec![
            Print::Str("A"),
            Print::Literal(nb("3")),
            Print::Str("B")
        ])))
    );
    assert_eq!(
        literal(" \"\" \"a b\"  x+1 y "),
        Ok(Line::Expr(Expression::Print(vec![
            Print::Str(""),
            Print::Str("a b"),
            Print::Literal(bin(BinOp::Add, Literal::Var("x"), nb("1"))),
            Print::Literal(Literal::Var("y")),
        ])))
    );
    let mut lexer = Lexer::load("1 \"a\"");
    assert_eq!(
        parse_print(&mut lexer),
        Ok(vec![Print::Literal(nb("1")), Print::Str("a")])
    );
    assert_eq!(lexer.next().kind(), TokenKind::Eof);
    assert_eq!(parse_print(&mut Lexer::load("")), Ok(vec![]));
}

#[test]
fn errors_name_the_place() {
    assert_eq!(literal("2*3*3)*4"), Err("Incomplete expression\n2*3*3)*4\n     ^".to_string()));
    assert_eq!(literal("2*(3*3*4"), Err("Missing block end ')'\n2*(3*3*4\n        ^".to_string()));
    assert_eq!(
        literal("test(1"),
        Err("Missing function invocation end ')'\ntest(1\n      ^".to_string())
    );
    assert_eq!(literal("test("), Err("Incomplete expression\ntest(\n     ^".to_string()));
    assert_eq!(literal("test()"), Err("Incomplete expression\ntest()\n     ^".to_string()));
    assert_eq!(
        literal("*4"),
        Err("Expected an unary operator such as + or -\n*4\n^".to_string())
    );
    assert_eq!(
        literal("1 + =2"),
        Err("Expected an unary operator such as + or -\n1 + =2\n    ^".to_string())
    );
    assert_eq!(literal("1 +"), Err("Incomplete expression\n1 +\n   ^".to_string()));
    assert_eq!(literal("3.4.5"), Err("Incomplete expression\n3.4.5\n   ^^".to_string()));
    assert_eq!(literal(".5"), Err("Incomplete expression\n.5\n^^".to_string()));
    assert_eq!(literal("1 2"), Err("Incomplete expression\n1 2\n  ^".to_string()));
    assert_eq!(literal("x = "), Err("Incomplete expression\nx = \n    ^".to_string()));
    assert_eq!(literal("x = 1 )"), Err("Incomplete expression\nx = 1 )\n      ^".to_string()));
    assert_eq!(literal("1 # c"), Err("Incomplete expression\n1 # c\n  ^".to_string()));
    assert_eq!(
        literal("é + ?"),
        Err("Incomplete expression\né + ?\n     ^".to_string())
    );
}

#[test]
fn strings_must_be_closed() {
    assert_eq!(
        literal("\"nop"),
        Err("Missing string end, '\"' is missing\n\"nop\n    ^".to_string())
    );
    assert_eq!(literal("\""), Err("Missing string end, '\"' is missing\n\"\n ^".to_string()));
    assert_eq!(
        literal("\"12\" 34 \"nop"),
        Err("Missing string end, '\"' is missing\n\"12\" 34 \"nop\n            ^".to_string())
    );
    assert_eq!(
        literal("12 \"nop\""),
        Err("Incomplete expression\n12 \"nop\"\n   ^^^^^".to_string())
    );
    let tokens = tokenize("\"a\" \"b");
    assert_eq!(string_part(&tokens[0]), Ok(Print::Str("a")));
    assert_eq!(
        string_part(&tokens[1]),
        Err("Missing string end, '\"' is missing\n\"a\" \"b\n      ^".to_string())
    );
}

#[test]
fn a_lexer_that_has_moved_parses_what_is_left() {
    let mut lexer = Lexer::load("1 + 2 * 3");
    lexer.next();
    lexer.next();
    assert_eq!(parse(lexer), tree(bin(BinOp::Mul, nb("2"), nb("3"))));
    let mut lexer = Lexer::load("1 x = 2");
    lexer.next();
    assert_eq!(parse(lexer), Ok(Line::Expr(Expression::Assign("x", nb("2")))));
    let mut lexer = Lexer::load("1 + x");
    lexer.next();
    lexer.next();
    assert_eq!(parse(lexer), tree(bin(BinOp::Add, nb("1"), Literal::Var("x"))));
}

#[test]
fn expressions_stop_at_weaker_operators() {
    let mut lexer = Lexer::load("2*3+4");
    assert_eq!(parser_literal(&mut lexer, 1), Ok(bin(BinOp::Mul, nb("2"), nb("3"))));
    assert_eq!(lexer.next().kind(), TokenKind::Op(Op::Add));
    let mut lexer = Lexer::load("2*3+4");
    assert_eq!(parser_literal(&mut lexer, 2), Ok(nb("2")));
    assert_eq!(lexer.next().kind(), TokenKind::Op(Op::Mul));
    let mut lexer = Lexer::load("2^3");
    assert_eq!(parser_literal(&mut lexer, 3), Ok(nb("2")));
    let mut lexer = Lexer::load("2^3");
    assert_eq!(parser_literal(&mut lexer, 2), Ok(bin(BinOp::Pow, nb("2"), nb("3"))));
}

#[test]
fn binding_powers() {
    assert_eq!(prefix_binding_power(UnOp::Add), 3);
    assert_eq!(prefix_binding_power(UnOp::Sub), 3);
    assert_eq!(infix_binding_power(BinOp::Add), 1);
    assert_eq!(infix_binding_power(BinOp::Sub), 1);
    assert_eq!(infix_binding_power(BinOp::Mul), 2);
    assert_eq!(infix_binding_power(BinOp::Div), 2);
    assert_eq!(infix_binding_power(BinOp::Mod), 2);
    assert_eq!(infix_binding_power(BinOp::Pow), 3);
}

#[test]
fn operators_convert() {
    assert_eq!(UnOp::try_from(Op::Add), Ok(UnOp::Add));
    assert_eq!(UnOp::try_from(Op::Sub), Ok(UnOp::Sub));
    for op in [Op::Mul, Op::Div, Op::Mod, Op::Pow, Op::Eq] {
        assert_eq!(UnOp::try_from(op), Err("Expected an unary operator such as + or -"));
    }
    assert_eq!(BinOp::try_from(Op::Add), Ok(BinOp::Add));
    assert_eq!(BinOp::try_from(Op::Sub), Ok(BinOp::Sub));
    assert_eq!(BinOp::try_from(Op::Mul), Ok(BinOp::Mul));
    assert_eq!(BinOp::try_from(Op::Div), Ok(BinOp::Div));
    assert_eq!(BinOp::try_from(Op::Mod), Ok(BinOp::Mod));
    assert_eq!(BinOp::try_from(Op::Pow), Ok(BinOp::Pow));
    assert_eq!(
        BinOp::try_from(Op::Eq),
        Err("Expected an binary operator such as +, -, *, *, % or ^")
    );
    assert_eq!(infix_operator(TokenKind::Op(Op::Pow)), Some(BinOp::Pow));
    assert_eq!(infix_operator(TokenKind::Op(Op::Eq)), None);
    assert_eq!(infix_operator(TokenKind::Nb), None);
    assert_eq!(infix_operator(TokenKind::Sep(Sep::Open)), None);
}

#[test]
fn kinds_are_expected() {
    let tokens = tokenize("1 )");
    let ok = expect_kind(tokens[1].clone(), TokenKind::Sep(Sep::Close), "m");
    assert_eq!(ok.map(|t| t.span().clone()), Ok(2..3));
    let err = expect_kind(tokens[0].clone(), TokenKind::Sep(Sep::Close), "Wrong");
    assert_eq!(err.map(|t| t.span().clone()), Err("Wrong\n1 )\n^".to_string()));
}

#[test]
fn any_text_is_parsed_or_refused() {
    let samples = [
        "", " ", "((((", "))))", "\"\"\"", "1+", "+-+-", "é数😀", "\u{0}\u{1}", "a=b=c", "=",
        "# #", "1 # ", "f((", "f()(", "\u{202e}x", "١٢٣", "x=\"", "^", "%%", "1e5", "0x10",
        "_", "__=1", "\"\\\"", "\t\r\n", "𝔘𝔫𝔦𝔠𝔬𝔡𝔢", "a\u{301}", "ß(ß)", "(1", "1)", "-", "--",
    ];
    for sample in samples {
        let result = parse(Lexer::load(sample));
        if let Err(e) = &result {
            assert!(!e.is_empty());
            assert!(e.contains(sample));
        }
        let tokens = tokenize(sample);
        assert_eq!(tokens.last().unwrap().kind(), TokenKind::Eof);
    }
}
