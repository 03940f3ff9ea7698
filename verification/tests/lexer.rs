use tml::lexer::{tokenize, Lexer, Op, Run, Sep, Token, TokenKind};

fn kinds(source: &str) -> Vec<TokenKind> {
    tokenize(source).iter().map(|t| t.kind()).collect()
}

fn spans(source: &str) -> Vec<(usize, usize)> {
    tokenize(source).iter().map(|t| (t.span().start, t.span().end)).collect()
}

fn texts(source: &str) -> Vec<&str> {
    tokenize(source).iter().map(|t| t.splice()).collect()
}

#[test]
fn single_characters_are_tokens() {
    assert_eq!(
        kinds("+-*/%^=()#"),
        vec![
            TokenKind::Op(Op::Add),
            TokenKind::Op(Op::Sub),
            TokenKind::Op(Op::Mul),
            TokenKind::Op(Op::Div),
            TokenKind::Op(Op::Mod),
            TokenKind::Op(Op::Pow),
            TokenKind::Op(Op::Eq),
            TokenKind::Sep(Sep::Open),
            TokenKind::Sep(Sep::Close),
            TokenKind::Sep(Sep::Comment),
            TokenKind::Eof,
        ]
    );
    assert_eq!(
        spans("+-*/%^=()#"),
        vec![
            (0, 1),
            (1, 2),
            (2, 3),
            (3, 4),
            (4, 5),
            (5, 6),
            (6, 7),
            (7, 8),
            (8, 9),
            (9, 10),
            (10, 10)
        ]
    );
}

#[test]
fn empty_line_is_the_end_alone() {
    assert_eq!(kinds(""), vec![TokenKind::Eof]);
    assert_eq!(spans(""), vec![(0, 0)]);
    assert_eq!(kinds("  \t "), vec![TokenKind::Eof]);
    assert_eq!(spans("  \t "), vec![(4, 4)]);
    assert_eq!(texts("  \t "), vec![""]);
}

#[test]
fn numbers_take_one_dot() {
    assert_eq!(texts("12345"), vec!["12345", ""]);
    assert_eq!(texts("12345."), vec!["12345.", ""]);
    assert_eq!(texts("123.45"), vec!["123.45", ""]);
    assert_eq!(texts("3.4.5"), vec!["3.4", ".5", ""]);
    assert_eq!(kinds("3.4.5"), vec![TokenKind::Nb, TokenKind::Error, TokenKind::Eof]);
    assert_eq!(spans("3.4.5"), vec![(0, 3), (3, 5), (5, 5)]);
    assert_eq!(texts("1..2"), vec!["1.", ".2", ""]);
    assert_eq!(texts("1.a"), vec!["1.", "a", ""]);
    assert_eq!(texts("1a"), vec!["1", "a", ""]);
    assert_eq!(kinds("1a"), vec![TokenKind::Nb, TokenKind::Id, TokenKind::Eof]);
    assert_eq!(kinds(".5"), vec![TokenKind::Error, TokenKind::Eof]);
    assert_eq!(texts("7 8"), vec!["7", "8", ""]);
}

#[test]
fn identifiers_take_letters_digits_and_underscores() {
    assert_eq!(texts("abc"), vec!["abc", ""]);
    assert_eq!(texts("a1b2"), vec!["a1b2", ""]);
    assert_eq!(texts("_x"), vec!["_x", ""]);
    assert_eq!(kinds("_x"), vec![TokenKind::Id, TokenKind::Eof]);
    assert_eq!(texts("my_var2+1"), vec!["my_var2", "+", "1", ""]);
    assert_eq!(texts("log10(x)"), vec!["log10", "(", "x", ")", ""]);
    assert_eq!(
        kinds("log10(x)"),
        vec![
            TokenKind::Id,
            TokenKind::Sep(Sep::Open),
            TokenKind::Id,
            TokenKind::Sep(Sep::Close),
            TokenKind::Eof
        ]
    );
}

#[test]
fn strings_end_at_the_next_quote_or_the_end() {
    assert_eq!(texts("\"abc\""), vec!["\"abc\"", ""]);
    assert_eq!(texts("\"abc\"1"), vec!["\"abc\"", "1", ""]);
    assert_eq!(texts("\"abc"), vec!["\"abc", ""]);
    assert_eq!(texts("\"abc  "), vec!["\"abc  ", ""]);
    assert_eq!(texts("\""), vec!["\"", ""]);
    assert_eq!(texts("\"\""), vec!["\"\"", ""]);
    assert_eq!(texts("\"a\"\"b\""), vec!["\"a\"", "\"b\"", ""]);
    assert_eq!(texts("\"1+#\" 2"), vec!["\"1+#\"", "2", ""]);
    assert_eq!(kinds("\"abc"), vec![TokenKind::Str, TokenKind::Eof]);
}

#[test]
fn unknown_characters_take_the_rest_of_the_line() {
    assert_eq!(kinds("1 ? 2"), vec![TokenKind::Nb, TokenKind::Error, TokenKind::Eof]);
    assert_eq!(texts("1 ? 2"), vec!["1", "? 2", ""]);
    assert_eq!(spans("1 ? 2"), vec![(0, 1), (2, 5), (5, 5)]);
    assert_eq!(kinds("$"), vec![TokenKind::Error, TokenKind::Eof]);
    assert_eq!(kinds("[1]"), vec![TokenKind::Error, TokenKind::Eof]);
}

#[test]
fn spans_count_bytes() {
    let source = " é=\"ça\" + 数";
    assert_eq!(texts(source), vec!["é", "=", "\"ça\"", "+", "数", ""]);
    assert_eq!(
        kinds(source),
        vec![
            TokenKind::Id,
            TokenKind::Op(Op::Eq),
            TokenKind::Str,
            TokenKind::Op(Op::Add),
            TokenKind::Id,
            TokenKind::Eof
        ]
    );
    assert_eq!(spans(source), vec![(1, 3), (3, 4), (4, 9), (10, 11), (12, 15), (15, 15)]);
    for token in tokenize(source) {
        assert_eq!(&source[token.span().clone()], token.splice());
    }
    let emoji = "1+😀";
    assert_eq!(kinds(emoji), vec![TokenKind::Nb, TokenKind::Op(Op::Add), TokenKind::Error, TokenKind::Eof]);
    assert_eq!(spans(emoji), vec![(0, 1), (1, 2), (2, 6), (6, 6)]);
    assert_eq!(emoji.len(), 6);
}

#[test]
fn characters_are_counted_beside_bytes() {
    let tokens = tokenize("é + 数1");
    assert_eq!((tokens[0].first(), tokens[0].past()), (0, 1));
    assert_eq!((tokens[1].first(), tokens[1].past()), (2, 3));
    assert_eq!((tokens[2].first(), tokens[2].past()), (4, 6));
    assert_eq!((tokens[3].first(), tokens[3].past()), (6, 6));
}

#[test]
fn blanks_of_every_script_separate_tokens() {
    assert_eq!(texts("1\u{a0}+\u{2003}2\u{3000}"), vec!["1", "+", "2", ""]);
    assert_eq!(texts("1\t+\n2\r\u{b}\u{c}"), vec!["1", "+", "2", ""]);
    assert_eq!(spans("\u{3000}x"), vec![(3, 4), (4, 4)]);
}

#[test]
fn tokens_lie_in_order() {
    for source in ["", "  ", "1+2", " a = \"b\" 3.4.5 ", "f(x)^-2 # c", "é 数 \"", "((("] {
        let tokens = tokenize(source);
        let mut end = 0;
        for (k, token) in tokens.iter().enumerate() {
            assert!(end <= token.span().start, "{}", source);
            assert!(token.span().start <= token.span().end);
            if k + 1 < tokens.len() {
                assert_ne!(token.kind(), TokenKind::Eof);
                assert!(token.span().start < token.span().end);
            }
            end = token.span().end;
        }
        let last = tokens.last().unwrap();
        assert_eq!(last.kind(), TokenKind::Eof);
        assert_eq!((last.span().start, last.span().end), (source.len(), source.len()));
    }
}

#[test]
fn peek_does_not_move() {
    let mut lexer = Lexer::load(" 12 + x");
    assert_eq!(lexer.peek().kind(), TokenKind::Nb);
    assert_eq!(lexer.peek().splice(), "12");
    let first = lexer.next();
    assert_eq!((first.kind(), first.splice()), (TokenKind::Nb, "12"));
    let second = lexer.next();
    assert_eq!(second.kind(), TokenKind::Op(Op::Add));
    assert_eq!(lexer.peek().kind(), TokenKind::Id);
    assert_eq!(lexer.next().splice(), "x");
    assert_eq!(lexer.next().kind(), TokenKind::Eof);
    assert_eq!(lexer.next().kind(), TokenKind::Eof);
    assert_eq!(lexer.peek().kind(), TokenKind::Eof);
}

#[test]
fn reset_starts_over() {
    let mut lexer = Lexer::load("a b");
    assert_eq!(lexer.next().splice(), "a");
    assert_eq!(lexer.peek().splice(), "b");
    lexer.reset();
    assert_eq!(lexer.peek().splice(), "a");
    assert_eq!(lexer.next().splice(), "a");
    assert_eq!(lexer.next().splice(), "b");
    lexer.reset();
    assert_eq!(lexer.next().splice(), "a");
}

#[test]
fn clones_stand_where_the_lexer_stood() {
    let mut lexer = Lexer::load("a b c");
    lexer.next();
    lexer.peek();
    let mut copy = lexer.clone();
    assert_eq!(lexer.next().splice(), "b");
    assert_eq!(lexer.next().splice(), "c");
    assert_eq!(copy.next().splice(), "b");
    let token = copy.next();
    let same = token.clone();
    assert_eq!((same.kind(), same.splice(), same.span().clone()), (TokenKind::Id, "c", 4..5));
}

fn error_of(token: &Token, msg: &str) -> String {
    token.err_there(msg)
}

#[test]
fn errors_point_at_the_span() {
    let tokens = tokenize("ab + cde");
    assert_eq!(error_of(&tokens[0], "m"), "m\nab + cde\n^^");
    assert_eq!(error_of(&tokens[1], "Wrong"), "Wrong\nab + cde\n   ^");
    assert_eq!(error_of(&tokens[2], ""), "\nab + cde\n     ^^^");
    assert_eq!(error_of(&tokens[3], "end"), "end\nab + cde\n        ^");
    let wide = tokenize("é ?");
    assert_eq!(error_of(&wide[0], "m"), "m\né ?\n^^");
    assert_eq!(error_of(&wide[1], "m"), "m\né ?\n   ^");
}

#[test]
fn after_points_behind_the_token() {
    let tokens = tokenize("\"ab");
    let after = tokens[0].after();
    assert_eq!(after.kind(), TokenKind::Str);
    assert_eq!(after.span().clone(), 3..4);
    assert_eq!(after.splice(), "");
    assert_eq!((after.first(), after.past()), (3, 3));
    assert_eq!(after.err_there("m"), "m\n\"ab\n   ^");
    let inner = tokenize("1 2")[0].after();
    assert_eq!(inner.span().clone(), 1..2);
    assert_eq!(inner.after().span().clone(), 2..3);
}

#[test]
fn runs_name_their_characters() {
    assert!(Run::Blanks.has(' ') && Run::Blanks.has('\u{a0}') && !Run::Blanks.has('a'));
    assert!(Run::Digits.has('0') && Run::Digits.has('9') && !Run::Digits.has('a'));
    assert!(!Run::Digits.has('٣'));
    assert!(Run::Name.has('a') && Run::Name.has('_') && Run::Name.has('7') && Run::Name.has('٣'));
    assert!(!Run::Name.has('-') && !Run::Name.has(' '));
    assert!(Run::Quoted.has('a') && Run::Quoted.has(' ') && !Run::Quoted.has('"'));
    assert_eq!(tml::lexer::single_kind('+'), Some(TokenKind::Op(Op::Add)));
    assert_eq!(tml::lexer::single_kind('^'), Some(TokenKind::Op(Op::Pow)));
    assert_eq!(tml::lexer::single_kind('#'), Some(TokenKind::Sep(Sep::Comment)));
    assert_eq!(tml::lexer::single_kind('a'), None);
    assert_eq!(tml::lexer::single_kind('"'), None);
}
