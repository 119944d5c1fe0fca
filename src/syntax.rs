//! The lexer and parser of the host grammar, as the rest of the library sees them.
use crate::parsing::{bytes_of, char_literals_plain, splits, tokens_of, MAX_PARSE_TOKENS};
use ra_syntax::{File, SyntaxKind};
use vstd::prelude::*;

verus! {

/// The kind of a lexed token, as far as this library cares: the sigil `$`, an
/// identifier, whitespace, a character literal, an opening or closing bracket (by
/// its code), `;`, a lone `=`, a character the lexer does not know, or any other
/// kind of the grammar, by its code.
#[derive(Clone, Copy, Debug, PartialEq, Eq, Structural)]
pub enum TokenKind {
    Dollar,
    Ident,
    Whitespace,
    Char,
    Open(u16),
    Close(u16),
    Semi,
    Eq,
    Error,
    Other(u16),
}

/// A token as the lexer reports it: its kind and its length in bytes.
#[derive(Clone, Copy, Debug, PartialEq, Eq, Structural)]
pub struct LexedToken {
    pub kind: TokenKind,
    pub len: usize,
}

#[verifier::external_type_specification]
#[verifier::external_body]
pub struct ExFile(File);

/// The tokens that the lexer finds in a text.
pub uninterp spec fn lexed(text: Seq<char>) -> Seq<LexedToken>;

/// The number of syntax errors that parsing a text as a source file reports.
pub uninterp spec fn parse_error_count(text: Seq<char>) -> nat;

/// Relies on `ra_syntax::tokenize`: the tokens of `text` in order, each with its
/// kind and its length in bytes. The lexer consumes at least one character per
/// token until the text is used up, so the lengths cut the text at character
/// boundaries and cover it.
#[verifier::external_body]
pub(crate) fn lex(text: &str) -> (r: Vec<LexedToken>)
    ensures
        r@ == lexed(text@),
        splits(bytes_of(text@), r@),
{
    ra_syntax::tokenize(text).iter().map(|t| LexedToken {
        kind: match t.kind {
            SyntaxKind::DOLLAR => TokenKind::Dollar,
            SyntaxKind::IDENT => TokenKind::Ident,
            SyntaxKind::WHITESPACE => TokenKind::Whitespace,
            SyntaxKind::CHAR => TokenKind::Char,
            SyntaxKind::L_PAREN | SyntaxKind::L_BRACK | SyntaxKind::L_CURLY => TokenKind::Open(t.kind as u16),
            SyntaxKind::R_PAREN | SyntaxKind::R_BRACK | SyntaxKind::R_CURLY => TokenKind::Close(t.kind as u16),
            SyntaxKind::SEMI => TokenKind::Semi,
            SyntaxKind::EQ => TokenKind::Eq,
            SyntaxKind::ERROR => TokenKind::Error,
            other => TokenKind::Other(other as u16),
        },
        len: u32::from(t.len) as usize,
    }).collect()
}

/// Relies on `ra_syntax::File::parse` and `File::errors`: the tree of `text` read
/// as a source file, and how many syntax errors the parser and its validation found.
/// Inputs on which these panic are left out:
/// - the validation of character literals in `File::errors` asserts that a literal
///   ends at its closing quote, which fails on a literal with a suffix (`'1'x`), so
///   only plain character literals are admitted;
/// - the parser panics after ten million lookahead steps over one parse, and
///   recurses once per nested construct, so the text is held to a small number of
///   tokens.
/// The check of brace pairing that `File::parse` makes in debug builds tests the
/// tree that the parser itself built.
#[verifier::external_body]
pub(crate) fn parse_source_file(text: &str) -> (r: (File, usize))
    requires
        char_literals_plain(tokens_of(text@)),
        tokens_of(text@).len() <= MAX_PARSE_TOKENS,
    ensures
        r.1 == parse_error_count(text@),
{
    let file = File::parse(text);
    let errors = file.errors().len();
    (file, errors)
}

} // verus!
