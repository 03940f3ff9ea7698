//! A line-oriented calculator language: tokens, syntax trees and the
//! decisions of evaluation, each with a proved contract.

pub mod blanks;
pub mod highlighter;
pub mod interpreter;
pub mod lexer;
pub mod parser;
pub mod text;

use crate::highlighter::{highlighted, HtmlHighlighter};
use vstd::prelude::*;

verus! {

/// The line `input` as HTML, each token in a `span` of its kind.
pub fn highlight(input: &str) -> (html: String)
    ensures
        html@ == highlighted(&HtmlHighlighter, input@),
{
    let mut html = String::new();
    crate::highlighter::highlight(&mut html, input, HtmlHighlighter);
    assert(html@ =~= highlighted(&HtmlHighlighter, input@));
    html
}

} // verus!
