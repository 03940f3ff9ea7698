//! The pull lexer: it finds the tokens of one source line, one at a time.

use crate::text::{
    blank, byte_len, byte_length, byte_offset, chars_of, digit, ident_part, ident_start, is_blank,
    is_digit, is_ident_part, is_ident_start, lemma_byte_offset_monotonic, lemma_byte_offset_step,
    utf8_len,
};
use std::ops::Range;
use vstd::prelude::*;
use vstd::string::*;

verus! {

/// An operator character.
#[derive(Debug, Clone, Copy, PartialEq, Eq, Structural)]
pub enum Op {
    /// `+`
    Add,
    /// `-`
    Sub,
    /// `*`
    Mul,
    /// `/`
    Div,
    /// `%`
    Mod,
    /// `^`
    Pow,
    /// `=`
    Eq,
}

/// A separator character.
#[derive(Debug, Clone, Copy, PartialEq, Eq, Structural)]
pub enum Sep {
    /// `(`
    Open,
    /// `)`
    Close,
    /// `#`
    Comment,
}

/// What a token is.
#[derive(Debug, Clone, Copy, PartialEq, Eq, Structural)]
pub enum TokenKind {
    /// A number: digits, with an optional fractional part.
    Nb,
    /// An operator.
    Op(Op),
    /// An identifier.
    Id,
    /// A text between double quotes.
    Str,
    /// A separator.
    Sep(Sep),
    /// A character that begins no token, with all that follows it.
    Error,
    /// The end of the line.
    Eof,
}

/// A class of characters that a token may run through.
#[derive(Clone, Copy)]
pub enum Run {
    /// Blank characters.
    Blanks,
    /// ASCII digits.
    Digits,
    /// Characters that continue an identifier.
    Name,
    /// Everything but a double quote.
    Quoted,
}

impl Run {
    /// Whether `c` belongs to the class.
    pub open spec fn holds(self, c: char) -> bool {
        match self {
            Run::Blanks => is_blank(c),
            Run::Digits => is_digit(c),
            Run::Name => is_ident_part(c),
            Run::Quoted => c != '"',
        }
    }

    /// Whether `c` belongs to the class.
    pub fn has(self, c: char) -> (r: bool)
        ensures
            r == self.holds(c),
    {
        match self {
            Run::Blanks => blank(c),
            Run::Digits => digit(c),
            Run::Name => ident_part(c),
            Run::Quoted => c != '"',
        }
    }
}

/// The first index at or after `i` whose character is not in `run`, or the
/// length of `s` if there is none.
pub open spec fn run_end(s: Seq<char>, i: int, run: Run) -> int
    decreases s.len() - i,
{
    if 0 <= i < s.len() && run.holds(s[i]) {
        run_end(s, i + 1, run)
    } else {
        i
    }
}

/// A token as the grammar defines it: its kind and the characters
/// `first..past` that it covers.
pub struct Lexeme {
    pub kind: TokenKind,
    pub first: int,
    pub past: int,
}

/// The token of a single character, if `c` is one.
pub open spec fn single(c: char) -> Option<TokenKind> {
    if c == '+' {
        Some(TokenKind::Op(Op::Add))
    } else if c == '-' {
        Some(TokenKind::Op(Op::Sub))
    } else if c == '*' {
        Some(TokenKind::Op(Op::Mul))
    } else if c == '/' {
        Some(TokenKind::Op(Op::Div))
    } else if c == '%' {
        Some(TokenKind::Op(Op::Mod))
    } else if c == '^' {
        Some(TokenKind::Op(Op::Pow))
    } else if c == '=' {
        Some(TokenKind::Op(Op::Eq))
    } else if c == '(' {
        Some(TokenKind::Sep(Sep::Open))
    } else if c == ')' {
        Some(TokenKind::Sep(Sep::Close))
    } else if c == '#' {
        Some(TokenKind::Sep(Sep::Comment))
    } else {
        None
    }
}

/// Where the number that begins at `start` ends: after its digits, and after
/// one dot and the digits behind it if a dot follows them.
pub open spec fn number_end(s: Seq<char>, start: int) -> int {
    let whole = run_end(s, start + 1, Run::Digits);
    if whole < s.len() && s[whole] == '.' {
        run_end(s, whole + 1, Run::Digits)
    } else {
        whole
    }
}

/// Where the string that begins with the quote at `start` ends: after the
/// next quote, or at the end of the line if there is none.
pub open spec fn string_end(s: Seq<char>, start: int) -> int {
    let quote = run_end(s, start + 1, Run::Quoted);
    if quote < s.len() {
        quote + 1
    } else {
        quote
    }
}

/// The token that begins at the non-blank character with index `start`.
pub open spec fn lex_from(s: Seq<char>, start: int) -> Lexeme
    recommends
        0 <= start < s.len(),
{
    let c = s[start];
    if single(c) is Some {
        Lexeme { kind: single(c).unwrap(), first: start, past: start + 1 }
    } else if c == '"' {
        Lexeme { kind: TokenKind::Str, first: start, past: string_end(s, start) }
    } else if is_digit(c) {
        Lexeme { kind: TokenKind::Nb, first: start, past: number_end(s, start) }
    } else if is_ident_start(c) {
        Lexeme { kind: TokenKind::Id, first: start, past: run_end(s, start + 1, Run::Name) }
    } else {
        Lexeme { kind: TokenKind::Error, first: start, past: s.len() as int }
    }
}

/// The next token of `s` for a lexer that stands at index `i`: blanks are
/// passed over, and the end of the line is a token of its own.
#[verifier::opaque]
pub open spec fn lex_at(s: Seq<char>, i: int) -> Lexeme
    recommends
        0 <= i <= s.len(),
{
    let start = run_end(s, i, Run::Blanks);
    if start >= s.len() {
        Lexeme { kind: TokenKind::Eof, first: s.len() as int, past: s.len() as int }
    } else {
        lex_from(s, start)
    }
}

/// A run ends between its start and the end of the line, every character
/// before its end is in the class, and the one at its end is not.
pub proof fn lemma_run_end(s: Seq<char>, i: int, run: Run)
    requires
        0 <= i <= s.len(),
    ensures
        i <= run_end(s, i, run) <= s.len(),
        forall|j: int| i <= j < run_end(s, i, run) ==> run.holds(#[trigger] s[j]),
        run_end(s, i, run) < s.len() ==> !run.holds(s[run_end(s, i, run)]),
    decreases s.len() - i,
{
    if i < s.len() && run.holds(s[i]) {
        lemma_run_end(s, i + 1, run);
    }
}

/// A run ends at `r` if every character from `i` up to `r` is in the class
/// and the one at `r`, if there is one, is not.
pub proof fn lemma_run_end_is(s: Seq<char>, i: int, r: int, run: Run)
    requires
        0 <= i <= r <= s.len(),
        forall|j: int| i <= j < r ==> run.holds(#[trigger] s[j]),
        r < s.len() ==> !run.holds(s[r]),
    ensures
        run_end(s, i, run) == r,
    decreases r - i,
{
    if i < r {
        lemma_run_end_is(s, i + 1, r, run);
    }
}

/// Blanks before a token change nothing: a lexer finds the same token from
/// `i` as from `j` if only blanks lie between the two.
pub proof fn lemma_blanks_skipped(s: Seq<char>, i: int, j: int)
    requires
        0 <= i <= j <= s.len(),
        forall|k: int| i <= k < j ==> is_blank(#[trigger] s[k]),
    ensures
        lex_at(s, i) == lex_at(s, j),
    decreases j - i,
{
    reveal(lex_at);
    if i < j {
        lemma_blanks_skipped(s, i + 1, j);
    }
}

/// A token lies inside the line and after the lexer's position; only the end
/// of the line is an empty token.
pub proof fn lemma_lex_at_bounds(s: Seq<char>, i: int)
    requires
        0 <= i,
    ensures
        lex_at(s, i).first <= lex_at(s, i).past <= s.len(),
        i <= s.len() ==> i <= lex_at(s, i).first,
        lex_at(s, i).kind != TokenKind::Eof ==> i <= lex_at(s, i).first < lex_at(s, i).past,
        lex_at(s, i).kind == TokenKind::Eof ==> lex_at(s, i).first == s.len(),
{
    reveal(lex_at);
    if i <= s.len() {
        lemma_run_end(s, i, Run::Blanks);
        let start = run_end(s, i, Run::Blanks);
        if start < s.len() {
            lemma_run_end(s, start + 1, Run::Quoted);
            lemma_run_end(s, start + 1, Run::Name);
            lemma_run_end(s, start + 1, Run::Digits);
            let whole = run_end(s, start + 1, Run::Digits);
            if whole < s.len() {
                lemma_run_end(s, whole + 1, Run::Digits);
            }
        }
    }
}

/// Number of characters from index `i` to the end of `s`.
pub open spec fn left(s: Seq<char>, i: nat) -> nat {
    if i <= s.len() {
        (s.len() - i) as nat
    } else {
        0
    }
}

/// The tokens of `s` from index `i` on, up to and with the end of the line.
pub open spec fn tokens_from(s: Seq<char>, i: nat) -> Seq<Lexeme>
    decreases left(s, i),
{
    let t = lex_at(s, i as int);
    if t.kind == TokenKind::Eof {
        seq![t]
    } else {
        proof {
            lemma_lex_at_bounds(s, i as int);
        }
        seq![t] + tokens_from(s, t.past as nat)
    }
}

/// Whether the tokens `ts` lie in order between index `i` and the end of a
/// line of `n` characters: each ends before the next begins, none is empty
/// but the last, and the last is the end of the line.
pub open spec fn in_order(ts: Seq<Lexeme>, i: int, n: int) -> bool {
    &&& ts.len() >= 1
    &&& ts.last().kind == TokenKind::Eof
    &&& ts.last().first == n
    &&& ts.last().past == n
    &&& forall|k: int| 0 <= k < ts.len() ==> i <= (#[trigger] ts[k]).first <= ts[k].past <= n
    &&& forall|k: int|
        0 <= k < ts.len() - 1 ==> (#[trigger] ts[k]).kind != TokenKind::Eof && ts[k].first
            < ts[k].past
    &&& forall|j: int, k: int|
        0 <= j < k < ts.len() ==> (#[trigger] ts[j]).past <= (#[trigger] ts[k]).first
}

/// The tokens of a line lie in order.
pub proof fn lemma_tokens_in_order(s: Seq<char>, i: nat)
    requires
        i <= s.len(),
    ensures
        in_order(tokens_from(s, i), i as int, s.len() as int),
    decreases left(s, i),
{
    let t = lex_at(s, i as int);
    let n = s.len() as int;
    lemma_lex_at_bounds(s, i as int);
    let all = tokens_from(s, i);
    if t.kind != TokenKind::Eof {
        let rest = tokens_from(s, t.past as nat);
        lemma_tokens_in_order(s, t.past as nat);
        assert(all == seq![t] + rest);
        assert(all.len() == rest.len() + 1);
        assert(all[0] == t);
        assert forall|k: int| 1 <= k < all.len() implies all[k] == rest[k - 1] by {}
        assert(all.last() == rest.last());
        assert forall|k: int| 0 <= k < all.len() implies i <= (#[trigger] all[k]).first
            <= all[k].past <= n by {
            if k > 0 {
                assert(all[k] == rest[k - 1]);
            }
        }
        assert forall|k: int| 0 <= k < all.len() - 1 implies (#[trigger] all[k]).kind
            != TokenKind::Eof && all[k].first < all[k].past by {
            if k > 0 {
                assert(all[k] == rest[k - 1]);
            }
        }
        assert forall|j: int, k: int| 0 <= j < k < all.len() implies (#[trigger] all[j]).past <= (
        #[trigger] all[k]).first by {
            assert(all[k] == rest[k - 1]);
            if j > 0 {
                assert(all[j] == rest[j - 1]);
            }
        }
    } else {
        assert(all == seq![t]);
    }
}

/// Whether `text` is written as a number: digits, at least one, which one
/// dot and further digits may follow.
pub open spec fn is_number_text(text: Seq<char>) -> bool {
    exists|k: int| number_with_whole(text, k)
}

/// Whether `text` is written as a number whose whole part has `k` digits.
pub open spec fn number_with_whole(text: Seq<char>, k: int) -> bool {
    &&& 1 <= k <= text.len()
    &&& forall|j: int| 0 <= j < k ==> is_digit(#[trigger] text[j])
    &&& k < text.len() ==> text[k] == '.'
    &&& forall|j: int| k < j < text.len() ==> is_digit(#[trigger] text[j])
}

/// A number token is written as a number.
pub proof fn lemma_number_token(s: Seq<char>, i: int)
    requires
        0 <= i <= s.len(),
        lex_at(s, i).kind == TokenKind::Nb,
    ensures
        is_number_text(s.subrange(lex_at(s, i).first, lex_at(s, i).past)),
{
    reveal(lex_at);
    lemma_run_end(s, i, Run::Blanks);
    let start = run_end(s, i, Run::Blanks);
    lemma_run_end(s, start + 1, Run::Digits);
    let whole = run_end(s, start + 1, Run::Digits);
    let t = lex_at(s, i);
    let text = s.subrange(t.first, t.past);
    if whole < s.len() && s[whole] == '.' {
        lemma_run_end(s, whole + 1, Run::Digits);
    }
    assert forall|j: int| 0 <= j < whole - start implies is_digit(#[trigger] text[j]) by {
        assert(text[j] == s[start + j]);
    }
    assert forall|j: int| whole - start < j < text.len() implies is_digit(#[trigger] text[j]) by {
        assert(text[j] == s[start + j]);
    }
    assert(number_with_whole(text, whole - start));
}

/// A token as callers see it.
pub struct TokenView {
    /// The line that the token was found in.
    pub source: Seq<char>,
    /// What the token is.
    pub kind: TokenKind,
    /// Index of its first character.
    pub first: int,
    /// Index after its last character.
    pub past: int,
    /// Byte offset of its first character.
    pub start: int,
    /// Byte offset after its last character.
    pub end: int,
}

impl TokenView {
    /// The characters that the token covers.
    pub open spec fn text(self) -> Seq<char> {
        self.source.subrange(self.first, self.past)
    }

    /// Whether this is the token that a lexer at index `i` of `s` finds, with
    /// the byte span of its characters.
    pub open spec fn is_token_at(self, s: Seq<char>, i: int) -> bool {
        &&& self.source == s
        &&& self.kind == lex_at(s, i).kind
        &&& self.first == lex_at(s, i).first
        &&& self.past == lex_at(s, i).past
        &&& self.start == byte_offset(s, self.first)
        &&& self.end == byte_offset(s, self.past)
    }
}

/// The line of carets under an error: `start` spaces, then one caret for
/// each of the `width` bytes, and one caret in any case.
pub open spec fn caret_line(start: nat, width: nat) -> Seq<char> {
    Seq::new(start, |i: int| ' ') + Seq::new(
        if width < 1 {
            1
        } else {
            width
        },
        |i: int| '^',
    )
}

/// An error as it is shown: the message, the source line, and a line of
/// carets under the span in question.
pub open spec fn error_text(msg: Seq<char>, source: Seq<char>, start: nat, width: nat) -> Seq<
    char,
> {
    msg + seq!['\n'] + source + seq!['\n'] + caret_line(start, width)
}

/// An error as it is shown is never empty: it holds two line breaks and
/// at least one caret.
pub proof fn lemma_error_text_len(msg: Seq<char>, source: Seq<char>, start: nat, width: nat)
    ensures
        error_text(msg, source, start, width).len() >= msg.len() + source.len() + start + 3,
{
}

/// A token of a source line.
#[derive(Debug, PartialEq, Eq)]
pub struct Token<'a> {
    source: &'a str,
    kind: TokenKind,
    span: Range<usize>,
    first: usize,
    past: usize,
}

impl<'a> View for Token<'a> {
    type V = TokenView;

    closed spec fn view(&self) -> TokenView {
        TokenView {
            source: self.source@,
            kind: self.kind,
            first: self.first as int,
            past: self.past as int,
            start: self.span.start as int,
            end: self.span.end as int,
        }
    }
}

impl<'a> Clone for Token<'a> {
    fn clone(&self) -> (t: Self)
        ensures
            t@ == self@,
    {
        proof {
            use_type_invariant(self);
        }
        Token {
            source: self.source,
            kind: self.kind,
            span: self.span.start..self.span.end,
            first: self.first,
            past: self.past,
        }
    }
}

impl<'a> Token<'a> {
    #[verifier::type_invariant]
    spec fn well_formed(self) -> bool {
        &&& self.first <= self.past <= self.source@.len()
        &&& self.span.start <= self.span.end
    }

    fn new(source: &'a str, kind: TokenKind, span: Range<usize>, first: usize, past: usize) -> (t:
        Self)
        requires
            first <= past <= source@.len(),
            span.start <= span.end,
        ensures
            t@ == (TokenView {
                source: source@,
                kind,
                first: first as int,
                past: past as int,
                start: span.start as int,
                end: span.end as int,
            }),
    {
        Self { source, kind, span, first, past }
    }

    /// What the token is.
    pub fn kind(&self) -> (k: TokenKind)
        ensures
            k == self@.kind,
    {
        self.kind
    }

    /// The byte offsets of the token in its line.
    pub fn span(&self) -> (r: &Range<usize>)
        ensures
            r.start == self@.start,
            r.end == self@.end,
            r.start <= r.end,
    {
        proof {
            use_type_invariant(self);
        }
        &self.span
    }

    /// Index of the token's first character in its line.
    pub fn first(&self) -> (i: usize)
        ensures
            i == self@.first,
            i <= self@.past <= self@.source.len(),
    {
        proof {
            use_type_invariant(self);
        }
        self.first
    }

    /// Index after the token's last character in its line.
    pub fn past(&self) -> (i: usize)
        ensures
            i == self@.past,
            self@.first <= i <= self@.source.len(),
    {
        proof {
            use_type_invariant(self);
        }
        self.past
    }

    /// The text of the token.
    pub fn splice(&self) -> (r: &'a str)
        ensures
            r@ == self@.text(),
            0 <= self@.first <= self@.past <= self@.source.len(),
    {
        proof {
            use_type_invariant(self);
        }
        self.source.substring_char(self.first, self.past)
    }

    /// A token of the same kind for the byte that follows this one, which
    /// covers no character: the place to point at when something is missing
    /// behind a token.
    pub fn after(&self) -> (t: Token<'a>)
        ensures
            t@.source == self@.source,
            t@.kind == self@.kind,
            t@.first == self@.past,
            t@.past == self@.past,
            t@.start == self@.end,
            t@.end == if self@.end < usize::MAX {
                self@.end + 1
            } else {
                self@.end
            },
    {
        proof {
            use_type_invariant(self);
        }
        let end: usize = if self.span.end < usize::MAX {
            self.span.end + 1
        } else {
            self.span.end
        };
        Token::new(self.source, self.kind, self.span.end..end, self.past, self.past)
    }

    /// The error `err` at this token, as it is shown.
    pub fn err_there(&self, err: &str) -> (r: String)
        ensures
            r@ == error_text(
                err@,
                self@.source,
                self@.start as nat,
                (self@.end - self@.start) as nat,
            ),
    {
        proof {
            use_type_invariant(self);
            reveal_strlit("\n");
            reveal_strlit(" ");
            reveal_strlit("^");
        }
        let mut r = String::from_str(err);
        r.append("\n");
        r.append(self.source);
        r.append("\n");
        let ghost head = r@;
        assert(head =~= err@ + seq!['\n'] + self.source@ + seq!['\n']);
        let mut i: usize = 0;
        while i < self.span.start
            invariant
                i <= self.span.start,
                r@ == head + Seq::new(i as nat, |k: int| ' '),
                " "@ == seq![' '],
            decreases self.span.start - i,
        {
            r.append(" ");
            i = i + 1;
            assert(r@ =~= head + Seq::new(i as nat, |k: int| ' '));
        }
        let ghost lead = r@;
        let width: usize = self.span.end - self.span.start;
        let carets: usize = if width < 1 {
            1
        } else {
            width
        };
        let mut j: usize = 0;
        while j < carets
            invariant
                j <= carets,
                r@ == lead + Seq::new(j as nat, |k: int| '^'),
                "^"@ == seq!['^'],
            decreases carets - j,
        {
            r.append("^");
            j = j + 1;
            assert(r@ =~= lead + Seq::new(j as nat, |k: int| '^'));
        }
        assert(r@ =~= error_text(
            err@,
            self@.source,
            self@.start as nat,
            (self@.end - self@.start) as nat,
        ));
        r
    }
}

/// The token of a single character, if `c` is one.
pub fn single_kind(c: char) -> (r: Option<TokenKind>)
    ensures
        r == single(c),
{
    if c == '+' {
        Some(TokenKind::Op(Op::Add))
    } else if c == '-' {
        Some(TokenKind::Op(Op::Sub))
    } else if c == '*' {
        Some(TokenKind::Op(Op::Mul))
    } else if c == '/' {
        Some(TokenKind::Op(Op::Div))
    } else if c == '%' {
        Some(TokenKind::Op(Op::Mod))
    } else if c == '^' {
        Some(TokenKind::Op(Op::Pow))
    } else if c == '=' {
        Some(TokenKind::Op(Op::Eq))
    } else if c == '(' {
        Some(TokenKind::Sep(Sep::Open))
    } else if c == ')' {
        Some(TokenKind::Sep(Sep::Close))
    } else if c == '#' {
        Some(TokenKind::Sep(Sep::Comment))
    } else {
        None
    }
}

/// A place in the line, counted in characters and in bytes.
#[derive(Debug, Clone, Copy)]
struct Pos {
    index: usize,
    byte: usize,
}

impl Pos {
    /// Whether the two counts name the same place in `s`.
    spec fn at(self, s: Seq<char>) -> bool {
        &&& self.index <= s.len()
        &&& self.byte == byte_offset(s, self.index as int)
    }
}

/// A lexer as callers see it: the line, and the index of the character from
/// which the next token is sought.
pub struct LexerView {
    pub source: Seq<char>,
    pub cursor: int,
}

/// A pull lexer over one source line, with one token of lookahead.
#[derive(Debug)]
pub struct Lexer<'a> {
    source: &'a str,
    chars: Vec<char>,
    total: usize,
    here: Pos,
    peeked: Option<Token<'a>>,
}

impl<'a> View for Lexer<'a> {
    type V = LexerView;

    closed spec fn view(&self) -> LexerView {
        LexerView { source: self.source@, cursor: self.here.index as int }
    }
}

impl<'a> Clone for Lexer<'a> {
    fn clone(&self) -> (lexer: Self)
        ensures
            lexer@ == self@,
    {
        proof {
            use_type_invariant(self);
        }
        let peeked = match &self.peeked {
            Some(t) => Some(t.clone()),
            None => None,
        };
        Lexer {
            source: self.source,
            chars: chars_of(self.source),
            total: self.total,
            here: self.here,
            peeked,
        }
    }
}

impl<'a> Lexer<'a> {
    #[verifier::type_invariant]
    spec fn well_formed(self) -> bool {
        &&& self.chars@ == self.source@
        &&& self.total == byte_len(self.source@)
        &&& self.here.at(self.source@)
        &&& match self.peeked {
            Some(t) => t@.is_token_at(self.source@, self.here.index as int),
            None => true,
        }
    }

    /// A lexer at the beginning of `source`.
    pub fn load(source: &'a str) -> (lexer: Lexer<'a>)
        ensures
            lexer@ == (LexerView { source: source@, cursor: 0 }),
    {
        let chars = chars_of(source);
        let total = byte_length(source);
        proof {
            lemma_byte_offset_monotonic(source@, 0, 0);
        }
        Lexer { source, chars, total, here: Pos { index: 0, byte: 0 }, peeked: None }
    }

    /// The place one character after `p`.
    fn step(&self, p: Pos) -> (q: Pos)
        requires
            p.at(self.source@),
            p.index < self.source@.len(),
        ensures
            q.at(self.source@),
            q.index == p.index + 1,
            q.byte > p.byte,
    {
        proof {
            use_type_invariant(self);
            assert(p.index < self.chars.len());
            lemma_byte_offset_step(self.source@, p.index as int);
            lemma_byte_offset_monotonic(
                self.source@,
                p.index as int + 1,
                self.source@.len() as int,
            );
        }
        let width = utf8_len(self.chars[p.index]);
        Pos { index: p.index + 1, byte: p.byte + width }
    }

    /// The end of the line.
    fn end(&self) -> (q: Pos)
        ensures
            q.at(self.source@),
            q.index == self.source@.len(),
    {
        proof {
            use_type_invariant(self);
            lemma_byte_offset_monotonic(self.source@, 0, self.source@.len() as int);
        }
        Pos { index: self.chars.len(), byte: self.total }
    }

    /// The place where the run of `run` that begins at `from` ends.
    fn run(&self, from: Pos, run: Run) -> (to: Pos)
        requires
            from.at(self.source@),
        ensures
            to.at(self.source@),
            to.index == run_end(self.source@, from.index as int, run),
            from.index <= to.index,
            from.byte <= to.byte,
    {
        proof {
            use_type_invariant(self);
        }
        let mut p = from;
        while p.index < self.chars.len() && run.has(self.chars[p.index])
            invariant
                self.chars@ == self.source@,
                p.at(self.source@),
                from.index <= p.index,
                from.byte <= p.byte,
                run_end(self.source@, p.index as int, run) == run_end(
                    self.source@,
                    from.index as int,
                    run,
                ),
            decreases self.chars.len() - p.index,
        {
            p = self.step(p);
        }
        p
    }

    /// The token at the lexer's position, which stays where it is.
    fn token_here(&self) -> (t: Token<'a>)
        ensures
            t@.is_token_at(self@.source, self@.cursor),
    {
        proof {
            reveal(lex_at);
            use_type_invariant(self);
            lemma_lex_at_bounds(self.source@, self.here.index as int);
        }
        let start = self.run(self.here, Run::Blanks);
        if start.index >= self.chars.len() {
            let end = self.end();
            return Token::new(self.source, TokenKind::Eof, end.byte..end.byte, end.index, end.index);
        }
        let c = self.chars[start.index];
        let next = self.step(start);
        let (kind, end) = if let Some(kind) = single_kind(c) {
            (kind, next)
        } else if c == '"' {
            let quote = self.run(next, Run::Quoted);
            if quote.index < self.chars.len() {
                (TokenKind::Str, self.step(quote))
            } else {
                (TokenKind::Str, quote)
            }
        } else if digit(c) {
            let whole = self.run(next, Run::Digits);
            if whole.index < self.chars.len() && self.chars[whole.index] == '.' {
                let dot = self.step(whole);
                (TokenKind::Nb, self.run(dot, Run::Digits))
            } else {
                (TokenKind::Nb, whole)
            }
        } else if ident_start(c) {
            (TokenKind::Id, self.run(next, Run::Name))
        } else {
            (TokenKind::Error, self.end())
        };
        proof {
            lemma_byte_offset_monotonic(self.source@, start.index as int, end.index as int);
        }
        Token::new(self.source, kind, start.byte..end.byte, start.index, end.index)
    }

    /// Lexes the next token and moves behind it.
    fn lex_next(&mut self) -> (t: Token<'a>)
        requires
            old(self).peeked is None,
        ensures
            t@.is_token_at(old(self)@.source, old(self)@.cursor),
            final(self)@ == (LexerView { source: old(self)@.source, cursor: t@.past }),
            final(self).peeked is None,
    {
        let t = self.token_here();
        proof {
            use_type_invariant(&*self);
            lemma_lex_at_bounds(self.source@, self.here.index as int);
        }
        self.here = Pos { index: t.past, byte: t.span.end };
        t
    }

    /// The next token; the lexer moves behind it.
    pub fn next(&mut self) -> (t: Token<'a>)
        ensures
            0 <= old(self)@.cursor <= old(self)@.source.len(),
            t@.is_token_at(old(self)@.source, old(self)@.cursor),
            final(self)@ == (LexerView { source: old(self)@.source, cursor: t@.past }),
    {
        proof {
            use_type_invariant(&*self);
            lemma_lex_at_bounds(self.source@, self.here.index as int);
        }
        let peeked = match &self.peeked {
            Some(t) => Some(t.clone()),
            None => None,
        };
        match peeked {
            Some(t) => {
                self.peeked = None;
                self.here = Pos { index: t.past, byte: t.span.end };
                t
            },
            None => self.lex_next(),
        }
    }

    /// The next token; the lexer stays before it.
    pub fn peek(&mut self) -> (t: &Token<'a>)
        ensures
            0 <= old(self)@.cursor <= old(self)@.source.len(),
            t@.is_token_at(old(self)@.source, old(self)@.cursor),
            final(self)@ == old(self)@,
    {
        proof {
            use_type_invariant(&*self);
        }
        if self.peeked.is_none() {
            let t = self.token_here();
            self.peeked = Some(t);
        }
        self.peeked.as_ref().unwrap()
    }

    /// Back to the beginning of the line.
    pub fn reset(&mut self)
        ensures
            final(self)@ == (LexerView { source: old(self)@.source, cursor: 0 }),
    {
        proof {
            use_type_invariant(&*self);
            lemma_byte_offset_monotonic(self.source@, 0, 0);
        }
        self.peeked = None;
        self.here = Pos { index: 0, byte: 0 };
    }
}

/// The token `t` of `s` as callers see it, with the byte span of its
/// characters.
pub open spec fn token_view(s: Seq<char>, t: Lexeme) -> TokenView {
    TokenView {
        source: s,
        kind: t.kind,
        first: t.first,
        past: t.past,
        start: byte_offset(s, t.first) as int,
        end: byte_offset(s, t.past) as int,
    }
}

/// All the tokens of `source`, the end of the line being the last.
pub fn tokenize<'a>(source: &'a str) -> (tokens: Vec<Token<'a>>)
    ensures
        tokens@.len() == tokens_from(source@, 0).len(),
        forall|k: int|
            0 <= k < tokens@.len() ==> (#[trigger] tokens@[k])@ == token_view(
                source@,
                tokens_from(source@, 0)[k],
            ),
{
    let ghost s = source@;
    let mut lexer = Lexer::load(source);
    let mut tokens: Vec<Token<'a>> = Vec::new();
    let ghost mut done: Seq<Lexeme> = Seq::empty();
    assert(done + tokens_from(s, 0) =~= tokens_from(s, 0));
    loop
        invariant
            s == source@,
            lexer@.source == s,
            0 <= lexer@.cursor,
            tokens@.len() == done.len(),
            tokens_from(s, 0) == done + tokens_from(s, lexer@.cursor as nat),
            forall|k: int|
                0 <= k < tokens@.len() ==> (#[trigger] tokens@[k])@ == token_view(s, done[k]),
        decreases left(s, lexer@.cursor as nat),
    {
        let ghost from = lexer@.cursor as nat;
        let ghost t = lex_at(s, from as int);
        let token = lexer.next();
        proof {
            lemma_lex_at_bounds(s, from as int);
        }
        let kind = token.kind();
        assert(token@ == token_view(s, t));
        tokens.push(token);
        proof {
            if t.kind != TokenKind::Eof {
                assert(done + (seq![t] + tokens_from(s, t.past as nat)) =~= done.push(t)
                    + tokens_from(s, t.past as nat));
            }
            done = done.push(t);
        }
        if kind == TokenKind::Eof {
            assert(tokens_from(s, 0) =~= done);
            return tokens;
        }
    }
}

} // verus!
