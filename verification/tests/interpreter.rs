use tml::interpreter::{
    finish_assign, finish_literal, finish_print, prepare, resolve_literal, resolve_print, Constant,
    Context, Function, Number, Piece, Task, Term,
};
use tml::lexer::Lexer;
use tml::parser::{parse, BinOp, Expression, Line, Literal, Print, UnOp};

fn value(term: &Term) -> f64 {
    match term {
        Term::Nb(text) => text.parse::<f64>().unwrap(),
        Term::Value(bits) => f64::from_bits(*bits),
        Term::Constant(Constant::Pi) => std::f64::consts::PI,
        Term::Constant(Constant::E) => std::f64::consts::E,
        Term::UnaryOp(op, operand) => {
            let nb = value(operand);
            match op {
                UnOp::Add => nb,
                UnOp::Sub => -nb,
            }
        }
        Term::BinaryOp(op, sides) => {
            let (l, r) = (value(&sides.0), value(&sides.1));
            match op {
                BinOp::Add => l + r,
                BinOp::Sub => l - r,
                BinOp::Mul => l * r,
                BinOp::Div => l / r,
                BinOp::Mod => l % r,
                BinOp::Pow => l.powf(r),
            }
        }
        Term::Call(function, argument) => {
            let nb = value(argument);
            match function {
                Function::Floor => nb.floor(),
                Function::Ceil => nb.ceil(),
                Function::Round => nb.round(),
                Function::Trunc => nb.trunc(),
                Function::Fract => nb.fract(),
                Function::Sqrt => nb.sqrt(),
                Function::Exp => nb.exp(),
                Function::Ln => nb.ln(),
                Function::Log2 => nb.log2(),
                Function::Log10 => nb.log10(),
                Function::Cos => nb.cos(),
                Function::Sin => nb.sin(),
                Function::Tan => nb.tan(),
                Function::Acos => nb.acos(),
                Function::Asin => nb.asin(),
                Function::Atan => nb.atan(),
            }
        }
    }
}

fn number(term: &Term) -> Number {
    let nb = value(term);
    Number { bits: nb.to_bits(), text: nb.to_string() }
}

fn shown(pieces: &[Piece]) -> Vec<String> {
    let mut texts = Vec::new();
    for piece in pieces {
        texts.push(match piece {
            Piece::Term(term) => value(term).to_string(),
            Piece::Str(text) => text.to_string(),
        });
    }
    texts
}

fn compute(ctx: &mut Context, input: &str) -> Result<String, String> {
    Ok(match prepare(ctx, input)? {
        Task::Nothing => String::new(),
        Task::Assign(id, term) => finish_assign(ctx, id, &number(&term)),
        Task::Literal(term) => finish_literal(ctx, &number(&term)),
        Task::Print(pieces) => finish_print(&shown(&pieces)),
    })
}

fn compute_literal(ctx: &mut Context, lit: &Literal) -> Result<f64, String> {
    Ok(value(&resolve_literal(ctx, lit)?))
}

fn compute_print(ctx: &mut Context, print: &[Print]) -> Result<String, String> {
    Ok(finish_print(&shown(&resolve_print(ctx, print)?)))
}

fn assert_compute(str: &str, nb: f64) {
    let parsed = parse(Lexer::load(str));
    assert!(parsed.is_ok(), "{:?}", parsed);
    let expr = match parsed.unwrap() {
        Line::Expr(it) => it,
        _ => unreachable!(),
    };
    let lit = match expr {
        Expression::Literal(lit) => lit,
        _ => unreachable!(),
    };
    let result = compute_literal(&mut Context::empty(), &lit);
    assert!(result.is_ok(), "{:?}", result);
    assert_eq!(result.unwrap(), nb)
}

fn assert_print(str: &str, expected: &str) {
    let parsed = parse(Lexer::load(str));
    assert!(parsed.is_ok(), "{:?}", parsed);
    let expr = match parsed.unwrap() {
        Line::Expr(it) => it,
        _ => unreachable!(),
    };
    let print = match expr {
        Expression::Print(print) => print,
        _ => unreachable!(),
    };
    let result = compute_print(&mut Context::empty(), &print);
    assert!(result.is_ok(), "{:?}", result);
    assert_eq!(result.unwrap(), expected)
}

fn assert_fail(str: &str) {
    let mut context = Context::empty();
    let result = compute(&mut context, str);
    assert!(result.is_err(), "{:?}", result);
    assert!(!result.unwrap_err().is_empty());
    assert_eq!(context.get("$"), None);
    assert_eq!(context.get("test"), None);
}

fn compute_no_context(str: &str) -> Result<String, String> {
    let mut context = Context::empty();
    compute(&mut context, str)
}

#[test]
fn test_parse_nb() {
    assert_compute("1", 1.);
    assert_compute("12345", 12345.);
    assert_compute("12345.", 12345.);
    assert_compute("123.45", 123.45);
}

#[test]
fn test_parse_fun() {
    assert_compute("cos(0.25)", 0.25f64.cos());
    assert_compute("sin(0.25)", 0.25f64.sin());
    assert_compute("log10(100)", 2.);
}

#[test]
fn test_op() {
    assert_compute("2+2", 4.);
    assert_compute("2-3", -1.);
    assert_compute("+2", 2.);
    assert_compute("-2", -2.);
    assert_compute("2*3", 6.);
    assert_compute("10/2", 5.);
    assert_compute("100%7", 2.);
}

#[test]
fn test_order() {
    assert_compute("2*3+3*4", 18.);
    assert_compute("2*(3*3)*4", 72.);
    assert_compute("2+3*3+4", 15.);
    assert_compute("(2+3)*(3+4)", 35.);
    assert_compute("10^2", 100.);
    assert_compute("2*10^2", 200.);
    assert_compute("2*10^2*2", 400.);
}

#[test]
fn test_var() {
    assert_compute("cos(PI)", -1.);
}

#[test]
fn test_error() {
    assert_fail("test");
    assert_fail("test(");
    assert_fail("test()");
    assert_fail("3.4.5");
    assert_fail(".5");
    assert_fail("2*3*3)*4");
    assert_fail("2*(3*3*4");
    assert_fail("*4");
    assert_fail("/1");
    assert_fail("/1#");
    assert_fail("\"");
    assert_fail("12 \"nop\"");
    assert_fail("\"nop");
    assert_fail("\"12\" 34 \"nop");
}

#[test]
fn test_lines() {
    assert_eq!(compute_no_context("").unwrap(), "");
    assert_eq!(compute_no_context("# I love chocolate").unwrap(), "");
}

#[test]
fn test_print() {
    assert_print("\"I Love Chocolate\"", "I Love Chocolate");
    assert_print("   \"I Love Chocolate\"  ", "I Love Chocolate");
    assert_print("\"I am \"18\" year old\"  ", "I am 18 year old");
    assert_print("\"I am \"18\" year old\"42", "I am 18 year old42");
    assert_print(
        "\"A\"\"B\"42\"C\"log2(345)+(5/9)*19-2\"Chocolate\"",
        "AB42C16.98600810722109Chocolate",
    );
}

#[test]
fn number_line_is_kept_under_the_accumulator() {
    for text in ["0", "7", "12345", "12345.", "123.45", "0.5", "000.250"] {
        let mut ctx = Context::empty();
        let expected = text.parse::<f64>().unwrap();
        assert_eq!(compute(&mut ctx, text).unwrap(), expected.to_string());
        assert_eq!(ctx.get("$"), Some(expected.to_bits()));
    }
}

#[test]
fn blanks_around_a_line_change_nothing() {
    assert_eq!(compute_no_context("  2+2  "), compute_no_context("2+2"));
    assert_eq!(compute_no_context("  2+2  ").unwrap(), "4");
    assert_eq!(compute_no_context("\t2 +\u{a0}2\r").unwrap(), "4");
}

#[test]
fn reserved_names_keep_their_constants() {
    let mut ctx = Context::empty();
    assert_eq!(compute(&mut ctx, "PI").unwrap(), std::f64::consts::PI.to_string());
    assert_eq!(compute(&mut ctx, "E").unwrap(), std::f64::consts::E.to_string());
    assert_eq!(compute(&mut ctx, "PI=5").unwrap(), "PI = 5");
    assert_eq!(ctx.get("PI"), Some(5f64.to_bits()));
    assert_eq!(compute(&mut ctx, "PI").unwrap(), std::f64::consts::PI.to_string());
    assert_eq!(compute(&mut ctx, "cos(PI)").unwrap(), "-1");
    assert_eq!(compute(&mut ctx, "E=1").unwrap(), "E = 1");
    assert_eq!(compute(&mut ctx, "ln(E)").unwrap(), "1");
}

#[test]
fn assignment_is_read_back() {
    let mut ctx = Context::empty();
    assert_eq!(compute(&mut ctx, "x=5").unwrap(), "x = 5");
    assert_eq!(compute(&mut ctx, "x").unwrap(), "5");
    assert_eq!(ctx.get("x"), Some(5f64.to_bits()));
    assert_eq!(ctx.get("$"), Some(5f64.to_bits()));
    assert_eq!(compute(&mut ctx, "x = x * 2 + 1").unwrap(), "x = 11");
    assert_eq!(compute(&mut ctx, "x").unwrap(), "11");
    assert_eq!(compute(&mut ctx, "my_var2 = x / 4").unwrap(), "my_var2 = 2.75");
    assert_eq!(compute(&mut ctx, "my_var2 - $").unwrap_err(), "Incomplete expression\nmy_var2 - $\n          ^");
}

#[test]
fn failure_leaves_the_context_as_it_was() {
    let mut ctx = Context::empty();
    compute(&mut ctx, "x=5").unwrap();
    compute(&mut ctx, "7").unwrap();
    for line in ["x = y", "x = 3 +", "x = foo(3)", "9 +", "(9", "\"a\" z", "x = \"a\""] {
        assert!(compute(&mut ctx, line).is_err(), "{}", line);
        assert_eq!(ctx.get("x"), Some(5f64.to_bits()));
        assert_eq!(ctx.get("$"), Some(7f64.to_bits()));
        assert_eq!(ctx.get("y"), None);
    }
}

#[test]
fn unknown_names_are_reported_in_order() {
    let mut ctx = Context::empty();
    assert_eq!(compute(&mut ctx, "test").unwrap_err(), "Unknown variable 'test'");
    assert_eq!(compute(&mut ctx, "foo(1)").unwrap_err(), "Unknown function 'foo'");
    assert_eq!(compute(&mut ctx, "a + b").unwrap_err(), "Unknown variable 'a'");
    assert_eq!(compute(&mut ctx, "foo(a)").unwrap_err(), "Unknown variable 'a'");
    assert_eq!(compute(&mut ctx, "1 + foo(2) * b").unwrap_err(), "Unknown function 'foo'");
    assert_eq!(compute(&mut ctx, "\"v\" a \"w\" b").unwrap_err(), "Unknown variable 'a'");
    assert_eq!(compute(&mut ctx, "pi").unwrap_err(), "Unknown variable 'pi'");
    assert_eq!(compute(&mut ctx, "Cos(1)").unwrap_err(), "Unknown function 'Cos'");
}

#[test]
fn every_function_is_known() {
    let names = [
        ("floor", Function::Floor),
        ("ceil", Function::Ceil),
        ("round", Function::Round),
        ("trunc", Function::Trunc),
        ("fract", Function::Fract),
        ("sqrt", Function::Sqrt),
        ("exp", Function::Exp),
        ("ln", Function::Ln),
        ("log2", Function::Log2),
        ("log10", Function::Log10),
        ("cos", Function::Cos),
        ("sin", Function::Sin),
        ("tan", Function::Tan),
        ("acos", Function::Acos),
        ("asin", Function::Asin),
        ("atan", Function::Atan),
    ];
    for (name, function) in names {
        assert_eq!(tml::interpreter::function_of(name), Some(function));
        let line = format!("{}(0.5)", name);
        let task = prepare(&Context::empty(), &line).unwrap();
        assert_eq!(task, Task::Literal(Term::Call(function, Box::new(Term::Nb("0.5")))));
    }
    assert_eq!(tml::interpreter::function_of("log"), None);
    assert_eq!(tml::interpreter::function_of(""), None);
    assert_eq!(tml::interpreter::constant_of("PI"), Some(Constant::Pi));
    assert_eq!(tml::interpreter::constant_of("E"), Some(Constant::E));
    assert_eq!(tml::interpreter::constant_of("e"), None);
}

#[test]
fn functions_calculate() {
    assert_compute("floor(2.5)", 2.);
    assert_compute("ceil(2.5)", 3.);
    assert_compute("round(2.5)", 3.);
    assert_compute("trunc(2.5)", 2.);
    assert_compute("fract(2.5)", 0.5);
    assert_compute("sqrt(16)", 4.);
    assert_compute("exp(0)", 1.);
    assert_compute("ln(1)", 0.);
    assert_compute("log2(8)", 3.);
    assert_compute("tan(0)", 0.);
    assert_compute("acos(1)", 0.);
    assert_compute("asin(0)", 0.);
    assert_compute("atan(0)", 0.);
    assert_compute("-floor(2.5)", -2.);
}

#[test]
fn operators_of_equal_power_group_to_the_left() {
    assert_compute("2-3-4", -5.);
    assert_compute("100/10/5", 2.);
    assert_compute("2^3^2", 64.);
    assert_compute("2^(3^2)", 512.);
    assert_compute("-2^2", 4.);
    assert_compute("2*-3", -6.);
    assert_compute("2--3", 5.);
    assert_compute("7%4*2", 6.);
}

#[test]
fn arithmetic_is_not_trapped() {
    assert_eq!(compute_no_context("1/0").unwrap(), "inf");
    assert_eq!(compute_no_context("-1/0").unwrap(), "-inf");
    assert_eq!(compute_no_context("0/0").unwrap(), "NaN");
    assert_eq!(compute_no_context("ln(0)").unwrap(), "-inf");
    assert_eq!(compute_no_context("sqrt(-1)").unwrap(), "NaN");
}

#[test]
fn context_keeps_the_last_value() {
    let mut ctx = Context::empty();
    assert_eq!(ctx.get("a"), None);
    ctx.assign("a".to_string(), 1);
    ctx.assign("b".to_string(), 2);
    assert_eq!(ctx.get("a"), Some(1));
    assert_eq!(ctx.get("b"), Some(2));
    ctx.assign("a".to_string(), 3);
    assert_eq!(ctx.get("a"), Some(3));
    assert_eq!(ctx.get("b"), Some(2));
    assert_eq!(ctx.get("A"), None);
    assert_eq!(ctx.get(""), None);
    ctx.assign(String::new(), 9);
    assert_eq!(ctx.get(""), Some(9));
}

#[test]
fn tasks_hold_what_is_left_to_calculate() {
    let mut ctx = Context::empty();
    ctx.assign("x".to_string(), 42);
    assert_eq!(prepare(&ctx, ""), Ok(Task::Nothing));
    assert_eq!(prepare(&ctx, "   "), Ok(Task::Nothing));
    assert_eq!(prepare(&ctx, " # x"), Ok(Task::Nothing));
    assert_eq!(prepare(&ctx, "x"), Ok(Task::Literal(Term::Value(42))));
    assert_eq!(prepare(&ctx, "E"), Ok(Task::Literal(Term::Constant(Constant::E))));
    assert_eq!(
        prepare(&ctx, "y = -x"),
        Ok(Task::Assign("y", Term::UnaryOp(UnOp::Sub, Box::new(Term::Value(42)))))
    );
    assert_eq!(
        prepare(&ctx, "\"a\" x+1.5 \"\""),
        Ok(Task::Print(vec![
            Piece::Str("a"),
            Piece::Term(Term::BinaryOp(BinOp::Add, Box::new((Term::Value(42), Term::Nb("1.5"))))),
            Piece::Str(""),
        ]))
    );
}

#[test]
fn results_are_shown() {
    let mut ctx = Context::empty();
    let number = Number { bits: 7, text: "seven".to_string() };
    assert_eq!(finish_assign(&mut ctx, "n", &number), "n = seven");
    assert_eq!(ctx.get("n"), Some(7));
    assert_eq!(finish_literal(&mut ctx, &number), "seven");
    assert_eq!(ctx.get("$"), Some(7));
    assert_eq!(finish_print(&[]), "");
    assert_eq!(finish_print(&["a".to_string(), String::new(), "bc".to_string()]), "abc");
}

#[test]
fn print_lines_show_their_parts_in_order() {
    let mut ctx = Context::empty();
    assert_eq!(
        compute(&mut ctx, "\"A\"\"B\"42\"C\"log2(345)+(5/9)*19-2\"Chocolate\"").unwrap(),
        "AB42C16.98600810722109Chocolate"
    );
    assert_eq!(compute(&mut ctx, "\"A\"3\"B\"").unwrap(), "A3B");
    assert_eq!(compute(&mut ctx, "\"\"").unwrap(), "");
    assert_eq!(compute(&mut ctx, "\" a  b \" 1/4 \"\" -2").unwrap(), " a  b 0.25-2");
    assert_eq!(ctx.get("$"), None);
    compute(&mut ctx, "x = 7").unwrap();
    assert_eq!(compute(&mut ctx, "\"x is \" x \", twice \" x*2").unwrap(), "x is 7, twice 14");
    assert_eq!(ctx.get("$"), None);
    assert_eq!(ctx.get("x"), Some(7f64.to_bits()));
}
