//! Highlighting: the text of a line, with each token wrapped in the style
//! of its kind.

use crate::lexer::{left, lemma_lex_at_bounds, lex_at, Lexeme, Lexer, Sep, TokenKind};
use crate::parser::text_of;
use crate::text::{decimal, push_decimal};
use vstd::prelude::*;
use vstd::string::*;

verus! {

/// What a piece of highlighted text is.
#[derive(Debug, Clone, Copy, PartialEq, Eq, Structural)]
pub enum SpanKind {
    /// A number.
    Nb,
    /// An operator.
    Op,
    /// The name of a function.
    Fun,
    /// The name of a variable.
    Var,
    /// A string.
    Str,
    /// A comment.
    Comment,
    /// An error.
    Error,
}

/// A way of writing styled text.
pub trait Highlighter {
    /// The text `text`, styled as `kind`: as it is, unless the way of
    /// writing says otherwise.
    open spec fn styled(&self, kind: SpanKind, text: Seq<char>) -> Seq<char> {
        text
    }

    /// Appends `span`, styled as `kind`, to `write`. What is kept between
    /// calls may change, the styles may not.
    fn span(&mut self, write: &mut String, kind: SpanKind, span: &str)
        ensures
            final(write)@ == old(write)@ + old(self).styled(kind, span@),
            forall|k: SpanKind, t: Seq<char>| #[trigger]
                final(self).styled(k, t) == old(self).styled(k, t),
    ;
}

/// The name of a kind as an HTML class.
pub open spec fn kind_name(kind: SpanKind) -> Seq<char> {
    match kind {
        SpanKind::Nb => "number"@,
        SpanKind::Op => "operator"@,
        SpanKind::Fun => "function"@,
        SpanKind::Var => "variable"@,
        SpanKind::Str => "string"@,
        SpanKind::Comment => "comment"@,
        SpanKind::Error => "error"@,
    }
}

/// The name of a kind as an HTML class.
pub fn span_kind_to_name(kind: SpanKind) -> (name: &'static str)
    ensures
        name@ == kind_name(kind),
{
    match kind {
        SpanKind::Nb => "number",
        SpanKind::Op => "operator",
        SpanKind::Fun => "function",
        SpanKind::Var => "variable",
        SpanKind::Str => "string",
        SpanKind::Comment => "comment",
        SpanKind::Error => "error",
    }
}

/// Styles text as HTML: a `span` element whose class names the kind.
pub struct HtmlHighlighter;

impl Highlighter for HtmlHighlighter {
    open spec fn styled(&self, kind: SpanKind, text: Seq<char>) -> Seq<char> {
        "<span class=\""@ + kind_name(kind) + "\">"@ + text + "</span>"@
    }

    fn span(&mut self, write: &mut String, kind: SpanKind, span: &str) {
        let ghost before = write@;
        write.append("<span class=\"");
        write.append(span_kind_to_name(kind));
        write.append("\">");
        write.append(span);
        write.append("</span>");
        assert(write@ =~= before + self.styled(kind, span@));
    }
}

/// The colour of a kind as an ANSI code.
pub open spec fn kind_code(kind: SpanKind) -> nat {
    match kind {
        SpanKind::Nb => 34,
        SpanKind::Op => 33,
        SpanKind::Fun => 32,
        SpanKind::Var => 35,
        SpanKind::Str => 36,
        SpanKind::Comment => 90,
        SpanKind::Error => 31,
    }
}

/// The colour of a kind as an ANSI code.
pub fn span_kind_to_ansi(kind: SpanKind) -> (code: u8)
    ensures
        code == kind_code(kind),
{
    match kind {
        SpanKind::Nb => 34,
        SpanKind::Op => 33,
        SpanKind::Fun => 32,
        SpanKind::Var => 35,
        SpanKind::Str => 36,
        SpanKind::Comment => 90,
        SpanKind::Error => 31,
    }
}

/// Styles text for a terminal: the colour of the kind is switched on
/// before the text and all styling is switched off behind it.
pub struct AnsiHighlighter;

impl Highlighter for AnsiHighlighter {
    open spec fn styled(&self, kind: SpanKind, text: Seq<char>) -> Seq<char> {
        "\x1b[0;"@ + decimal(kind_code(kind)) + "m"@ + text + "\x1b[0m"@
    }

    fn span(&mut self, write: &mut String, kind: SpanKind, span: &str) {
        let ghost before = write@;
        write.append("\x1b[0;");
        push_decimal(write, span_kind_to_ansi(kind));
        write.append("m");
        write.append(span);
        write.append("\x1b[0m");
        assert(write@ =~= before + self.styled(kind, span@));
    }
}

/// The style of the token `t` of `s`, if it has one: separators and
/// characters that begin no token are written as they are, and an
/// identifier is the name of a function where an opening parenthesis is the
/// next token.
pub open spec fn style_of(s: Seq<char>, t: Lexeme) -> Option<SpanKind> {
    match t.kind {
        TokenKind::Nb => Some(SpanKind::Nb),
        TokenKind::Op(_) => Some(SpanKind::Op),
        TokenKind::Id => if lex_at(s, t.past).kind == TokenKind::Sep(Sep::Open) {
            Some(SpanKind::Fun)
        } else {
            Some(SpanKind::Var)
        },
        TokenKind::Str => Some(SpanKind::Str),
        TokenKind::Sep(_) => None,
        TokenKind::Error => None,
        TokenKind::Eof => None,
    }
}

/// The token `t` of `s` as `h` writes it.
pub open spec fn token_text<H: Highlighter>(h: &H, s: Seq<char>, t: Lexeme) -> Seq<char> {
    match style_of(s, t) {
        Some(kind) => h.styled(kind, text_of(s, t)),
        None => text_of(s, t),
    }
}

/// The line `s` from index `i` on as `h` writes it: the blanks before each
/// token as they are, then the token.
pub open spec fn render<H: Highlighter>(h: &H, s: Seq<char>, i: nat) -> Seq<char>
    decreases left(s, i),
{
    let t = lex_at(s, i as int);
    let gap = s.subrange(i as int, t.first);
    if t.kind == TokenKind::Eof {
        gap
    } else {
        proof {
            lemma_lex_at_bounds(s, i as int);
        }
        gap + token_text(h, s, t) + render(h, s, t.past as nat)
    }
}

/// The line `s` as `h` writes it: a line that begins with a comment sign is
/// a comment as a whole, and every other line is written token by token.
pub open spec fn highlighted<H: Highlighter>(h: &H, s: Seq<char>) -> Seq<char> {
    if lex_at(s, 0).kind == TokenKind::Sep(Sep::Comment) {
        h.styled(SpanKind::Comment, s)
    } else {
        render(h, s, 0)
    }
}

/// Appends the line `code` to `writer`, styled by `highlighter`.
pub fn highlight<H: Highlighter>(writer: &mut String, code: &str, highlighter: H)
    ensures
        final(writer)@ == old(writer)@ + highlighted(&highlighter, code@),
{
    let ghost s = code@;
    let ghost start = writer@;
    let mut styler = highlighter;
    let mut lexer = Lexer::load(code);
    if lexer.peek().kind() == TokenKind::Sep(Sep::Comment) {
        styler.span(writer, SpanKind::Comment, code);
        return ;
    }
    let mut c: usize = 0;
    loop
        invariant
            s == code@,
            start == old(writer)@,
            lex_at(s, 0).kind != TokenKind::Sep(Sep::Comment),
            lexer@.source == s,
            lexer@.cursor == c,
            forall|k: SpanKind, t: Seq<char>| #[trigger]
                styler.styled(k, t) == highlighter.styled(k, t),
            start + render(&highlighter, s, 0) == writer@ + render(&highlighter, s, c as nat),
        decreases left(s, c as nat),
    {
        let ghost before = writer@;
        let ghost from = c as nat;
        let token = lexer.next();
        let ghost t = lex_at(s, from as int);
        proof {
            lemma_lex_at_bounds(s, from as int);
        }
        let first = token.first();
        if c < first {
            writer.append(code.substring_char(c, first));
        }
        let ghost gapped = writer@;
        assert(gapped =~= before + s.subrange(from as int, t.first));
        c = token.past();
        let kind = match token.kind() {
            TokenKind::Nb => Some(SpanKind::Nb),
            TokenKind::Op(_) => Some(SpanKind::Op),
            TokenKind::Id => {
                proof {
                    lemma_lex_at_bounds(s, t.past);
                }
                if lexer.peek().kind() == TokenKind::Sep(Sep::Open) {
                    Some(SpanKind::Fun)
                } else {
                    Some(SpanKind::Var)
                }
            },
            TokenKind::Str => Some(SpanKind::Str),
            TokenKind::Sep(_) => None,
            TokenKind::Error => None,
            TokenKind::Eof => {
                return ;
            },
        };
        match kind {
            Some(kind) => styler.span(writer, kind, token.splice()),
            None => writer.append(token.splice()),
        }
        assert(writer@ == gapped + token_text(&highlighter, s, t));
        assert(writer@ + render(&highlighter, s, t.past as nat) =~= before + render(&highlighter, s, from));
    }
}

/// Written without any style, the rest of a line is that rest itself.
pub proof fn lemma_render_plain<H: Highlighter>(h: &H, s: Seq<char>, i: nat)
    requires
        i <= s.len(),
        forall|kind: SpanKind, text: Seq<char>| #[trigger] h.styled(kind, text) == text,
    ensures
        render(h, s, i) == s.subrange(i as int, s.len() as int),
    decreases left(s, i),
{
    let t = lex_at(s, i as int);
    lemma_lex_at_bounds(s, i as int);
    if t.kind != TokenKind::Eof {
        lemma_render_plain(h, s, t.past as nat);
        assert(token_text(h, s, t) == text_of(s, t));
        assert(s.subrange(i as int, t.first) + s.subrange(t.first, t.past) + s.subrange(
            t.past,
            s.len() as int,
        ) =~= s.subrange(i as int, s.len() as int));
    }
}

/// Highlighting loses no character and adds none of its own: written
/// without any style, a line is the line itself.
pub proof fn lemma_highlight_plain<H: Highlighter>(h: &H, s: Seq<char>)
    requires
        forall|kind: SpanKind, text: Seq<char>| #[trigger] h.styled(kind, text) == text,
    ensures
        highlighted(h, s) == s,
{
    lemma_render_plain(h, s, 0);
    assert(s.subrange(0, s.len() as int) =~= s);
}

} // verus!
