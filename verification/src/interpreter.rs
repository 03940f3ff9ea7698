//! Evaluation: the variables of a session, and what a line asks to be
//! calculated once its names are resolved.
//!
//! Numbers are calculated outside this library. Here a number is either the
//! text of a literal or a value to be carried: the 64 bits that stand for
//! it, which the library stores and hands back without looking inside.

use crate::lexer::{is_number_text, Lexer};
use crate::parser::{
    lemma_number_line, lemma_parse_line_error, parse, parse_line, views, BinOp, Expression,
    ExpressionView, Line, LineView, Literal, LiteralView, Print, PrintView, UnOp,
};
use crate::text::same_text;
use vstd::prelude::*;
use vstd::string::*;

verus! {

/// A variable and its value.
#[derive(Debug, Clone)]
pub struct Entry {
    pub name: String,
    pub value: u64,
}

/// The value that the first entry named `key` holds, if there is one.
pub open spec fn find(entries: Seq<Entry>, key: Seq<char>) -> Option<u64>
    decreases entries.len(),
{
    if entries.len() == 0 {
        None
    } else if entries[0].name@ == key {
        Some(entries[0].value)
    } else {
        find(entries.drop_first(), key)
    }
}

/// With one more entry at the end, a key is found where it was found
/// before, and else in the new entry.
pub proof fn lemma_find_push(entries: Seq<Entry>, entry: Entry, key: Seq<char>)
    ensures
        find(entries.push(entry), key) == if find(entries, key) is Some {
            find(entries, key)
        } else if entry.name@ == key {
            Some(entry.value)
        } else {
            None
        },
    decreases entries.len(),
{
    if entries.len() == 0 {
        assert(entries.push(entry).drop_first() =~= entries);
    } else {
        assert(entries.push(entry).drop_first() =~= entries.drop_first().push(entry));
        lemma_find_push(entries.drop_first(), entry, key);
    }
}

/// With the first entry of some name replaced by another of that name, that
/// name has the new value and every other key what it had.
pub proof fn lemma_find_update(entries: Seq<Entry>, i: int, entry: Entry, key: Seq<char>)
    requires
        0 <= i < entries.len(),
        entries[i].name@ == entry.name@,
        forall|j: int| 0 <= j < i ==> entries[j].name@ != entry.name@,
    ensures
        find(entries.update(i, entry), key) == if key == entry.name@ {
            Some(entry.value)
        } else {
            find(entries, key)
        },
    decreases entries.len(),
{
    if i > 0 {
        assert(entries.update(i, entry).drop_first() =~= entries.drop_first().update(
            i - 1,
            entry,
        ));
        assert forall|j: int| 0 <= j < i - 1 implies entries.drop_first()[j].name@
            != entry.name@ by {
            assert(entries.drop_first()[j] == entries[j + 1]);
        }
        lemma_find_update(entries.drop_first(), i - 1, entry, key);
    } else {
        assert(entries.update(i, entry).drop_first() =~= entries.drop_first());
    }
}

/// A key that no entry from index `i` on is named after is found nowhere
/// from there on.
pub proof fn lemma_find_skip(entries: Seq<Entry>, i: int, key: Seq<char>)
    requires
        0 <= i < entries.len(),
        entries[i].name@ != key,
    ensures
        find(entries.subrange(i, entries.len() as int), key) == find(
            entries.subrange(i + 1, entries.len() as int),
            key,
        ),
{
    let rest = entries.subrange(i, entries.len() as int);
    assert(rest.drop_first() =~= entries.subrange(i + 1, entries.len() as int));
}

/// The variables of a session, each with the value last assigned to it.
#[derive(Debug, Clone)]
pub struct Context {
    entries: Vec<Entry>,
}

impl View for Context {
    type V = Map<Seq<char>, u64>;

    closed spec fn view(&self) -> Map<Seq<char>, u64> {
        Map::new(
            |key: Seq<char>| find(self.entries@, key) is Some,
            |key: Seq<char>| find(self.entries@, key).unwrap(),
        )
    }
}

impl Context {
    /// A session without variables.
    pub fn empty() -> (ctx: Self)
        ensures
            ctx@ == Map::<Seq<char>, u64>::empty(),
    {
        let ctx = Self { entries: Vec::new() };
        assert(ctx@ =~= Map::<Seq<char>, u64>::empty());
        ctx
    }

    /// Index of the first entry named `id`, or the number of entries.
    fn position(&self, id: &str) -> (i: usize)
        ensures
            i <= self.entries@.len(),
            forall|j: int| 0 <= j < i ==> self.entries@[j].name@ != id@,
            i < self.entries@.len() ==> self.entries@[i as int].name@ == id@,
            find(self.entries@, id@) == find(
                self.entries@.subrange(i as int, self.entries@.len() as int),
                id@,
            ),
    {
        let mut i: usize = 0;
        assert(self.entries@.subrange(0, self.entries@.len() as int) =~= self.entries@);
        while i < self.entries.len() && !same_text(self.entries[i].name.as_str(), id)
            invariant
                i <= self.entries@.len(),
                forall|j: int| 0 <= j < i ==> self.entries@[j].name@ != id@,
                find(self.entries@, id@) == find(
                    self.entries@.subrange(i as int, self.entries@.len() as int),
                    id@,
                ),
            decreases self.entries@.len() - i,
        {
            proof {
                lemma_find_skip(self.entries@, i as int, id@);
            }
            i = i + 1;
        }
        i
    }

    /// Gives the variable `id` the value `nb`, whether it had one or not.
    pub fn assign(&mut self, id: String, nb: u64)
        ensures
            final(self)@ == old(self)@.insert(id@, nb),
    {
        let i = self.position(id.as_str());
        let entry = Entry { name: id, value: nb };
        let ghost before = self.entries@;
        if i < self.entries.len() {
            self.entries.set(i, entry);
            assert forall|key: Seq<char>| #[trigger] find(self.entries@, key) == if key == id@ {
                Some(nb)
            } else {
                find(before, key)
            } by {
                lemma_find_update(before, i as int, entry, key);
            }
        } else {
            self.entries.push(entry);
            assert forall|key: Seq<char>| #[trigger] find(self.entries@, key) == if key == id@ {
                Some(nb)
            } else {
                find(before, key)
            } by {
                lemma_find_push(before, entry, key);
                assert(before.subrange(i as int, before.len() as int) =~= Seq::<Entry>::empty());
            }
        }
        assert(self@ =~= old(self)@.insert(id@, nb));
    }

    /// The value of the variable `id`, if it has one.
    pub fn get(&self, id: &str) -> (r: Option<u64>)
        ensures
            r == if self@.contains_key(id@) {
                Some(self@[id@])
            } else {
                None
            },
    {
        let i = self.position(id);
        if i < self.entries.len() {
            let ghost rest = self.entries@.subrange(i as int, self.entries@.len() as int);
            assert(rest[0] == self.entries@[i as int]);
            Some(self.entries[i].value)
        } else {
            assert(self.entries@.subrange(i as int, self.entries@.len() as int) =~= Seq::<
                Entry,
            >::empty());
            None
        }
    }
}

/// A built-in function of one number.
#[derive(Debug, Clone, Copy, PartialEq, Eq, Structural)]
pub enum Function {
    /// `floor`: the largest whole number that is not greater.
    Floor,
    /// `ceil`: the smallest whole number that is not less.
    Ceil,
    /// `round`: the nearest whole number, halves away from zero.
    Round,
    /// `trunc`: the whole part.
    Trunc,
    /// `fract`: the fractional part.
    Fract,
    /// `sqrt`: the square root.
    Sqrt,
    /// `exp`: the exponential function.
    Exp,
    /// `ln`: the natural logarithm.
    Ln,
    /// `log2`: the logarithm to base two.
    Log2,
    /// `log10`: the logarithm to base ten.
    Log10,
    /// `cos`: the cosine.
    Cos,
    /// `sin`: the sine.
    Sin,
    /// `tan`: the tangent.
    Tan,
    /// `acos`: the arc cosine.
    Acos,
    /// `asin`: the arc sine.
    Asin,
    /// `atan`: the arc tangent.
    Atan,
}

/// The built-in function called `name`, if there is one.
pub open spec fn function_named(name: Seq<char>) -> Option<Function> {
    if name == "floor"@ {
        Some(Function::Floor)
    } else if name == "ceil"@ {
        Some(Function::Ceil)
    } else if name == "round"@ {
        Some(Function::Round)
    } else if name == "trunc"@ {
        Some(Function::Trunc)
    } else if name == "fract"@ {
        Some(Function::Fract)
    } else if name == "sqrt"@ {
        Some(Function::Sqrt)
    } else if name == "exp"@ {
        Some(Function::Exp)
    } else if name == "ln"@ {
        Some(Function::Ln)
    } else if name == "log2"@ {
        Some(Function::Log2)
    } else if name == "log10"@ {
        Some(Function::Log10)
    } else if name == "cos"@ {
        Some(Function::Cos)
    } else if name == "sin"@ {
        Some(Function::Sin)
    } else if name == "tan"@ {
        Some(Function::Tan)
    } else if name == "acos"@ {
        Some(Function::Acos)
    } else if name == "asin"@ {
        Some(Function::Asin)
    } else if name == "atan"@ {
        Some(Function::Atan)
    } else {
        None
    }
}

/// The built-in function called `name`, if there is one.
pub fn function_of(name: &str) -> (r: Option<Function>)
    ensures
        r == function_named(name@),
{
    if same_text(name, "floor") {
        Some(Function::Floor)
    } else if same_text(name, "ceil") {
        Some(Function::Ceil)
    } else if same_text(name, "round") {
        Some(Function::Round)
    } else if same_text(name, "trunc") {
        Some(Function::Trunc)
    } else if same_text(name, "fract") {
        Some(Function::Fract)
    } else if same_text(name, "sqrt") {
        Some(Function::Sqrt)
    } else if same_text(name, "exp") {
        Some(Function::Exp)
    } else if same_text(name, "ln") {
        Some(Function::Ln)
    } else if same_text(name, "log2") {
        Some(Function::Log2)
    } else if same_text(name, "log10") {
        Some(Function::Log10)
    } else if same_text(name, "cos") {
        Some(Function::Cos)
    } else if same_text(name, "sin") {
        Some(Function::Sin)
    } else if same_text(name, "tan") {
        Some(Function::Tan)
    } else if same_text(name, "acos") {
        Some(Function::Acos)
    } else if same_text(name, "asin") {
        Some(Function::Asin)
    } else if same_text(name, "atan") {
        Some(Function::Atan)
    } else {
        None
    }
}

/// A constant with a reserved name.
#[derive(Debug, Clone, Copy, PartialEq, Eq, Structural)]
pub enum Constant {
    /// `PI`: the ratio of a circle's circumference to its diameter.
    Pi,
    /// `E`: the base of the natural logarithm.
    E,
}

/// The constant called `name`, if the name is reserved.
pub open spec fn constant_named(name: Seq<char>) -> Option<Constant> {
    if name == "PI"@ {
        Some(Constant::Pi)
    } else if name == "E"@ {
        Some(Constant::E)
    } else {
        None
    }
}

/// The constant called `name`, if the name is reserved.
pub fn constant_of(name: &str) -> (r: Option<Constant>)
    ensures
        r == constant_named(name@),
{
    if same_text(name, "PI") {
        Some(Constant::Pi)
    } else if same_text(name, "E") {
        Some(Constant::E)
    } else {
        None
    }
}

/// A calculation in which no name is left to look up.
#[derive(Debug, PartialEq)]
pub enum Term<'a> {
    /// A number, by its digits as they are written.
    Nb(&'a str),
    /// The value of a variable.
    Value(u64),
    /// A reserved constant.
    Constant(Constant),
    /// A prefix operator and its operand.
    UnaryOp(UnOp, Box<Term<'a>>),
    /// An infix operator and its two operands, left and right.
    BinaryOp(BinOp, Box<(Term<'a>, Term<'a>)>),
    /// A built-in function and its argument.
    Call(Function, Box<Term<'a>>),
}

/// A calculation, as a value.
pub enum TermView {
    Nb(Seq<char>),
    Value(u64),
    Constant(Constant),
    UnaryOp(UnOp, Box<TermView>),
    BinaryOp(BinOp, Box<TermView>, Box<TermView>),
    Call(Function, Box<TermView>),
}

impl<'a> Term<'a> {
    /// The calculation as a value.
    pub open spec fn tree(&self) -> TermView
        decreases self,
    {
        match self {
            Term::Nb(text) => TermView::Nb(text@),
            Term::Value(bits) => TermView::Value(*bits),
            Term::Constant(constant) => TermView::Constant(*constant),
            Term::UnaryOp(op, operand) => TermView::UnaryOp(*op, Box::new(operand.tree())),
            Term::BinaryOp(op, sides) => TermView::BinaryOp(
                *op,
                Box::new(sides.0.tree()),
                Box::new(sides.1.tree()),
            ),
            Term::Call(function, argument) => TermView::Call(
                *function,
                Box::new(argument.tree()),
            ),
        }
    }
}

impl<'a> Clone for Term<'a> {
    fn clone(&self) -> (copy: Self)
        ensures
            copy@ == self@,
        decreases self,
    {
        match self {
            Term::Nb(text) => Term::Nb(*text),
            Term::Value(bits) => Term::Value(*bits),
            Term::Constant(constant) => Term::Constant(*constant),
            Term::UnaryOp(op, operand) => Term::UnaryOp(*op, Box::new((**operand).clone())),
            Term::BinaryOp(op, sides) => Term::BinaryOp(
                *op,
                Box::new((sides.0.clone(), sides.1.clone())),
            ),
            Term::Call(function, argument) => Term::Call(
                *function,
                Box::new((**argument).clone()),
            ),
        }
    }
}

impl<'a> View for Term<'a> {
    type V = TermView;

    open spec fn view(&self) -> TermView {
        self.tree()
    }
}

/// Said of a function's name that is not built in.
pub open spec fn unknown_function(name: Seq<char>) -> Seq<char> {
    "Unknown function '"@ + name + "'"@
}

/// Said of a variable that has no value.
pub open spec fn unknown_variable(name: Seq<char>) -> Seq<char> {
    "Unknown variable '"@ + name + "'"@
}

/// The calculation that `literal` asks for among the variables `ctx`.
/// A reserved name is its constant whatever `ctx` holds under it. Where
/// several names are unknown, the error is that of the first one met when
/// operands are taken from left to right and an argument before its
/// function.
pub open spec fn resolve(ctx: Map<Seq<char>, u64>, literal: LiteralView) -> Result<
    TermView,
    Seq<char>,
>
    decreases literal,
{
    match literal {
        LiteralView::Nb(text) => Ok(TermView::Nb(text)),
        LiteralView::UnaryOp(op, operand) => match resolve(ctx, *operand) {
            Ok(term) => Ok(TermView::UnaryOp(op, Box::new(term))),
            Err(e) => Err(e),
        },
        LiteralView::BinaryOp(op, left, right) => match resolve(ctx, *left) {
            Ok(first) => match resolve(ctx, *right) {
                Ok(second) => Ok(TermView::BinaryOp(op, Box::new(first), Box::new(second))),
                Err(e) => Err(e),
            },
            Err(e) => Err(e),
        },
        LiteralView::Fun(name, argument) => match resolve(ctx, *argument) {
            Ok(term) => match function_named(name) {
                Some(function) => Ok(TermView::Call(function, Box::new(term))),
                None => Err(unknown_function(name)),
            },
            Err(e) => Err(e),
        },
        LiteralView::Var(name) => match constant_named(name) {
            Some(constant) => Ok(TermView::Constant(constant)),
            None => if ctx.contains_key(name) {
                Ok(TermView::Value(ctx[name]))
            } else {
                Err(unknown_variable(name))
            },
        },
    }
}

/// `"{prefix}{name}'"`.
fn quoted_name(prefix: &str, name: &str) -> (r: String)
    ensures
        r@ == prefix@ + name@ + "'"@,
{
    let mut r = String::from_str(prefix);
    r.append(name);
    r.append("'");
    r
}

/// Resolves the names of `lit` among the variables of `ctx`.
pub fn resolve_literal<'a>(ctx: &Context, lit: &Literal<'a>) -> (r: Result<Term<'a>, String>)
    ensures
        match resolve(ctx@, lit@) {
            Ok(term) => r is Ok && r->Ok_0@ == term,
            Err(e) => r is Err && r->Err_0@ == e,
        },
    decreases lit,
{
    match lit {
        Literal::Nb(text) => Ok(Term::Nb(*text)),
        Literal::UnaryOp(op, operand) => {
            match resolve_literal(ctx, operand) {
                Ok(term) => Ok(Term::UnaryOp(*op, Box::new(term))),
                Err(e) => Err(e),
            }
        },
        Literal::BinaryOp(op, sides) => {
            let first = match resolve_literal(ctx, &sides.0) {
                Ok(first) => first,
                Err(e) => {
                    return Err(e);
                },
            };
            let second = match resolve_literal(ctx, &sides.1) {
                Ok(second) => second,
                Err(e) => {
                    return Err(e);
                },
            };
            Ok(Term::BinaryOp(*op, Box::new((first, second))))
        },
        Literal::Fun(name, argument) => {
            let term = match resolve_literal(ctx, argument) {
                Ok(term) => term,
                Err(e) => {
                    return Err(e);
                },
            };
            match function_of(name) {
                Some(function) => Ok(Term::Call(function, Box::new(term))),
                None => Err(quoted_name("Unknown function '", name)),
            }
        },
        Literal::Var(name) => {
            match constant_of(name) {
                Some(constant) => Ok(Term::Constant(constant)),
                None => match ctx.get(name) {
                    Some(bits) => Ok(Term::Value(bits)),
                    None => Err(quoted_name("Unknown variable '", name)),
                },
            }
        },
    }
}

/// A part of a print expression in which no name is left to look up.
#[derive(Debug, Clone, PartialEq)]
pub enum Piece<'a> {
    /// A calculation, whose result is printed.
    Term(Term<'a>),
    /// A text, printed as it is.
    Str(&'a str),
}

/// A part of a print expression, as a value.
pub enum PieceView {
    Term(TermView),
    Str(Seq<char>),
}

impl<'a> View for Piece<'a> {
    type V = PieceView;

    open spec fn view(&self) -> PieceView {
        match self {
            Piece::Term(term) => PieceView::Term(term@),
            Piece::Str(text) => PieceView::Str(text@),
        }
    }
}

/// The pieces of a print expression, as values.
pub open spec fn pieces<'a>(parts: Seq<Piece<'a>>) -> Seq<PieceView> {
    Seq::new(parts.len(), |k: int| parts[k]@)
}

/// The piece that `part` asks for among the variables `ctx`.
pub open spec fn resolve_part(ctx: Map<Seq<char>, u64>, part: PrintView) -> Result<
    PieceView,
    Seq<char>,
> {
    match part {
        PrintView::Literal(literal) => match resolve(ctx, literal) {
            Ok(term) => Ok(PieceView::Term(term)),
            Err(e) => Err(e),
        },
        PrintView::Str(text) => Ok(PieceView::Str(text)),
    }
}

/// The pieces that `parts` ask for among the variables `ctx`, in order, or
/// the error of the first part that has one.
pub open spec fn resolve_parts(ctx: Map<Seq<char>, u64>, parts: Seq<PrintView>) -> Result<
    Seq<PieceView>,
    Seq<char>,
>
    decreases parts.len(),
{
    if parts.len() == 0 {
        Ok(Seq::empty())
    } else {
        match resolve_parts(ctx, parts.drop_last()) {
            Ok(done) => match resolve_part(ctx, parts.last()) {
                Ok(piece) => Ok(done.push(piece)),
                Err(e) => Err(e),
            },
            Err(e) => Err(e),
        }
    }
}

/// An error among the first `n` parts is the error of all of them.
pub proof fn lemma_resolve_parts_error(ctx: Map<Seq<char>, u64>, parts: Seq<PrintView>, n: int)
    requires
        0 <= n <= parts.len(),
        resolve_parts(ctx, parts.take(n)) is Err,
    ensures
        resolve_parts(ctx, parts) == resolve_parts(ctx, parts.take(n)),
    decreases parts.len() - n,
{
    if n < parts.len() {
        assert(parts.take(n + 1).drop_last() =~= parts.take(n));
        lemma_resolve_parts_error(ctx, parts, n + 1);
    } else {
        assert(parts.take(n) =~= parts);
    }
}

/// Resolves the names of the parts `print` among the variables of `ctx`.
pub fn resolve_print<'a>(ctx: &Context, print: &[Print<'a>]) -> (r: Result<Vec<Piece<'a>>, String>)
    ensures
        match resolve_parts(ctx@, views(print@)) {
            Ok(done) => r is Ok && pieces(r->Ok_0@) == done,
            Err(e) => r is Err && r->Err_0@ == e,
        },
{
    let ghost all = views(print@);
    let mut buf: Vec<Piece<'a>> = Vec::new();
    let mut i: usize = 0;
    assert(pieces(buf@) =~= Seq::<PieceView>::empty());
    assert(all.take(0) =~= Seq::<PrintView>::empty());
    while i < print.len()
        invariant
            i <= print@.len(),
            all == views(print@),
            resolve_parts(ctx@, all.take(i as int)) == Ok::<Seq<PieceView>, Seq<char>>(
                pieces(buf@),
            ),
        decreases print@.len() - i,
    {
        let ghost done = buf@;
        proof {
            assert(all.take(i as int + 1).drop_last() =~= all.take(i as int));
            assert(all.take(i as int + 1).last() == print@[i as int]@);
        }
        let piece = match &print[i] {
            Print::Literal(literal) => match resolve_literal(ctx, literal) {
                Ok(term) => Piece::Term(term),
                Err(e) => {
                    proof {
                        lemma_resolve_parts_error(ctx@, all, i as int + 1);
                    }
                    return Err(e);
                },
            },
            Print::Str(text) => Piece::Str(*text),
        };
        buf.push(piece);
        assert(pieces(buf@) =~= pieces(done).push(piece@));
        i = i + 1;
    }
    assert(all.take(i as int) =~= all);
    Ok(buf)
}

/// What is left to do for a line once its names are resolved.
#[derive(Debug, Clone, PartialEq)]
pub enum Task<'a> {
    /// Nothing: the line is empty or a comment.
    Nothing,
    /// Calculate, and give the variable the result.
    Assign(&'a str, Term<'a>),
    /// Calculate, and keep the result as the last one.
    Literal(Term<'a>),
    /// Calculate each piece that is no text, and print them all in order.
    Print(Vec<Piece<'a>>),
}

/// What is left to do for a line, as a value.
pub enum TaskView {
    Nothing,
    Assign(Seq<char>, TermView),
    Literal(TermView),
    Print(Seq<PieceView>),
}

impl<'a> View for Task<'a> {
    type V = TaskView;

    open spec fn view(&self) -> TaskView {
        match self {
            Task::Nothing => TaskView::Nothing,
            Task::Assign(name, term) => TaskView::Assign(name@, term@),
            Task::Literal(term) => TaskView::Literal(term@),
            Task::Print(parts) => TaskView::Print(pieces(parts@)),
        }
    }
}

/// What the line `line` asks for among the variables `ctx`.
pub open spec fn plan(ctx: Map<Seq<char>, u64>, line: LineView) -> Result<TaskView, Seq<char>> {
    match line {
        LineView::Comment(_) => Ok(TaskView::Nothing),
        LineView::Empty => Ok(TaskView::Nothing),
        LineView::Expr(ExpressionView::Assign(name, literal)) => match resolve(ctx, literal) {
            Ok(term) => Ok(TaskView::Assign(name, term)),
            Err(e) => Err(e),
        },
        LineView::Expr(ExpressionView::Literal(literal)) => match resolve(ctx, literal) {
            Ok(term) => Ok(TaskView::Literal(term)),
            Err(e) => Err(e),
        },
        LineView::Expr(ExpressionView::Print(parts)) => match resolve_parts(ctx, parts) {
            Ok(done) => Ok(TaskView::Print(done)),
            Err(e) => Err(e),
        },
    }
}

/// What the source line `source` asks for among the variables `ctx`: the
/// error of its syntax, or else what its syntax tree asks for.
pub open spec fn plan_source(ctx: Map<Seq<char>, u64>, source: Seq<char>) -> Result<
    TaskView,
    Seq<char>,
> {
    match parse_line(source, 0) {
        Ok(line) => plan(ctx, line),
        Err(e) => Err(e),
    }
}

/// Resolves the names of a parsed line among the variables of `ctx`.
pub fn prepare_line<'a>(ctx: &Context, line: &Line<'a>) -> (r: Result<Task<'a>, String>)
    ensures
        match plan(ctx@, line@) {
            Ok(task) => r is Ok && r->Ok_0@ == task,
            Err(e) => r is Err && r->Err_0@ == e,
        },
{
    match line {
        Line::Comment(_) => Ok(Task::Nothing),
        Line::Empty => Ok(Task::Nothing),
        Line::Expr(Expression::Assign(name, literal)) => match resolve_literal(ctx, literal) {
            Ok(term) => Ok(Task::Assign(*name, term)),
            Err(e) => Err(e),
        },
        Line::Expr(Expression::Literal(literal)) => match resolve_literal(ctx, literal) {
            Ok(term) => Ok(Task::Literal(term)),
            Err(e) => Err(e),
        },
        Line::Expr(Expression::Print(parts)) => match resolve_print(ctx, parts.as_slice()) {
            Ok(done) => Ok(Task::Print(done)),
            Err(e) => Err(e),
        },
    }
}

/// Parses the line `input` and resolves its names among the variables of
/// `ctx`, which stay as they are.
pub fn prepare<'a>(ctx: &Context, input: &'a str) -> (r: Result<Task<'a>, String>)
    ensures
        match plan_source(ctx@, input@) {
            Ok(task) => r is Ok && r->Ok_0@ == task,
            Err(e) => r is Err && r->Err_0@ == e,
        },
{
    let lexer = Lexer::load(input);
    match parse(lexer) {
        Ok(line) => prepare_line(ctx, &line),
        Err(e) => Err(e),
    }
}

/// A calculated number: the bits that stand for it, and how it is written.
#[derive(Debug, Clone)]
pub struct Number {
    pub bits: u64,
    pub text: String,
}

/// The name under which the result of a line that is an expression alone
/// is kept.
pub open spec fn accumulator() -> Seq<char> {
    "$"@
}

/// What an assignment shows: the name, an equals sign between two spaces,
/// and the number.
pub open spec fn assignment_text(name: Seq<char>, number: Seq<char>) -> Seq<char> {
    name + " = "@ + number
}

/// The texts of `parts`, one after the other.
pub open spec fn joined(parts: Seq<Seq<char>>) -> Seq<char>
    decreases parts.len(),
{
    if parts.len() == 0 {
        Seq::empty()
    } else {
        joined(parts.drop_last()) + parts.last()
    }
}

/// The texts of `parts`, as values.
pub open spec fn texts(parts: Seq<String>) -> Seq<Seq<char>> {
    Seq::new(parts.len(), |k: int| parts[k]@)
}

/// Ends an assignment: the variable `name` receives the calculated number,
/// and the line shows both.
pub fn finish_assign(ctx: &mut Context, name: &str, number: &Number) -> (shown: String)
    ensures
        final(ctx)@ == old(ctx)@.insert(name@, number.bits),
        shown@ == assignment_text(name@, number.text@),
{
    ctx.assign(String::from_str(name), number.bits);
    let mut shown = String::from_str(name);
    shown.append(" = ");
    shown.append(number.text.as_str());
    shown
}

/// Ends a line that is an expression alone: the calculated number is kept
/// under the accumulator's name, and the line shows it.
pub fn finish_literal(ctx: &mut Context, number: &Number) -> (shown: String)
    ensures
        final(ctx)@ == old(ctx)@.insert(accumulator(), number.bits),
        shown@ == number.text@,
{
    ctx.assign(String::from_str("$"), number.bits);
    number.text.clone()
}

/// Ends a print expression, whose parts are given as they are written: the
/// line shows them one after the other, and nothing else; the quotes that
/// stood around the strings in the source are not shown.
pub fn finish_print(parts: &[String]) -> (shown: String)
    ensures
        shown@ == joined(texts(parts@)),
{
    let mut shown = String::new();
    let mut i: usize = 0;
    assert(texts(parts@).take(0) =~= Seq::<Seq<char>>::empty());
    while i < parts.len()
        invariant
            i <= parts@.len(),
            shown@ == joined(texts(parts@).take(i as int)),
        decreases parts@.len() - i,
    {
        proof {
            let all = texts(parts@);
            assert(all.take(i as int + 1).drop_last() =~= all.take(i as int));
            assert(all.take(i as int + 1).last() == parts@[i as int]@);
        }
        shown.append(parts[i].as_str());
        i = i + 1;
    }
    assert(texts(parts@).take(i as int) =~= texts(parts@));
    shown
}

/// A reserved name is its constant, whatever the variables hold.
pub proof fn lemma_reserved_name(ctx: Map<Seq<char>, u64>, name: Seq<char>)
    requires
        constant_named(name) is Some,
    ensures
        resolve(ctx, LiteralView::Var(name)) == Ok::<TermView, Seq<char>>(
            TermView::Constant(constant_named(name)->Some_0),
        ),
{
}

/// A value assigned to a reserved name changes what no expression asks for.
pub proof fn lemma_reserved_assignment(
    ctx: Map<Seq<char>, u64>,
    name: Seq<char>,
    bits: u64,
    literal: LiteralView,
)
    requires
        constant_named(name) is Some,
    ensures
        resolve(ctx.insert(name, bits), literal) == resolve(ctx, literal),
    decreases literal,
{
    match literal {
        LiteralView::Nb(_) => {},
        LiteralView::UnaryOp(_, operand) => {
            lemma_reserved_assignment(ctx, name, bits, *operand);
        },
        LiteralView::BinaryOp(_, left, right) => {
            lemma_reserved_assignment(ctx, name, bits, *left);
            lemma_reserved_assignment(ctx, name, bits, *right);
        },
        LiteralView::Fun(_, argument) => {
            lemma_reserved_assignment(ctx, name, bits, *argument);
        },
        LiteralView::Var(_) => {},
    }
}

/// A variable whose name is not reserved has the value last assigned to it.
pub proof fn lemma_assigned_is_read(ctx: Map<Seq<char>, u64>, name: Seq<char>, bits: u64)
    requires
        constant_named(name) is None,
    ensures
        resolve(ctx.insert(name, bits), LiteralView::Var(name)) == Ok::<TermView, Seq<char>>(
            TermView::Value(bits),
        ),
{
}

/// A value assigned to one variable changes what no expression without
/// that variable asks for.
pub proof fn lemma_other_variables_kept(
    ctx: Map<Seq<char>, u64>,
    name: Seq<char>,
    bits: u64,
    other: Seq<char>,
)
    requires
        other != name,
    ensures
        resolve(ctx.insert(name, bits), LiteralView::Var(other)) == resolve(
            ctx,
            LiteralView::Var(other),
        ),
{
}

/// A line that is a number and nothing else asks for that number, whatever
/// the variables hold.
pub proof fn lemma_number_line_task(ctx: Map<Seq<char>, u64>, d: Seq<char>)
    requires
        is_number_text(d),
    ensures
        plan_source(ctx, d) == Ok::<TaskView, Seq<char>>(TaskView::Literal(TermView::Nb(d))),
{
    lemma_number_line(d);
}

/// The error of an expression with an unknown name is never empty.
pub proof fn lemma_resolve_error(ctx: Map<Seq<char>, u64>, literal: LiteralView)
    ensures
        match resolve(ctx, literal) {
            Ok(_) => true,
            Err(e) => e.len() > 0,
        },
    decreases literal,
{
    reveal_strlit("'");
    match literal {
        LiteralView::Nb(_) => {},
        LiteralView::UnaryOp(_, operand) => {
            lemma_resolve_error(ctx, *operand);
        },
        LiteralView::BinaryOp(_, left, right) => {
            lemma_resolve_error(ctx, *left);
            lemma_resolve_error(ctx, *right);
        },
        LiteralView::Fun(_, argument) => {
            lemma_resolve_error(ctx, *argument);
        },
        LiteralView::Var(_) => {},
    }
}

/// The error of a print expression with an unknown name is never empty.
pub proof fn lemma_resolve_parts_error_len(ctx: Map<Seq<char>, u64>, parts: Seq<PrintView>)
    ensures
        match resolve_parts(ctx, parts) {
            Ok(_) => true,
            Err(e) => e.len() > 0,
        },
    decreases parts.len(),
{
    if parts.len() > 0 {
        lemma_resolve_parts_error_len(ctx, parts.drop_last());
        match parts.last() {
            PrintView::Literal(literal) => {
                lemma_resolve_error(ctx, literal);
            },
            PrintView::Str(_) => {},
        }
    }
}

/// A line that fails says why: its error is never empty.
pub proof fn lemma_failure_is_told(ctx: Map<Seq<char>, u64>, source: Seq<char>)
    ensures
        match plan_source(ctx, source) {
            Ok(_) => true,
            Err(e) => e.len() > 0,
        },
{
    lemma_parse_line_error(source, 0);
    match parse_line(source, 0) {
        Ok(LineView::Expr(ExpressionView::Assign(_, literal))) => {
            lemma_resolve_error(ctx, literal);
        },
        Ok(LineView::Expr(ExpressionView::Literal(literal))) => {
            lemma_resolve_error(ctx, literal);
        },
        Ok(LineView::Expr(ExpressionView::Print(parts))) => {
            lemma_resolve_parts_error_len(ctx, parts);
        },
        _ => {},
    }
}

} // verus!
