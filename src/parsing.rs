//! Parsing of rules such as `foo($a) ==>> bar($a)`. The text on each side of the
//! delimiter `==>>` is lexed, and `$name` pairs of tokens become placeholders. The
//! template keeps every token, whitespace as well. The pattern is further parsed as
//! each kind of syntax that can be matched: expression, type, item, path and
//! pattern. The pattern keeps its whitespace tokens as well: they are part of the
//! text that the parser reads, and the matcher decides what they mean.
use crate::error::{SsrError, SsrErrorKind};
use crate::syntax::{
    lex, lexed, parse_error_count, parse_source_file, LexedToken, TokenKind,
};
use ra_syntax::File;
use vstd::prelude::*;
use vstd::string::{StrSliceExecFns, StringSliceAdditionalSpecFns};
use vstd::utf8::{decode_utf8, encode_utf8, encode_utf8_decode_utf8, is_char_boundary};

verus! {

/// A token of a pattern or template, with its exact text.
#[derive(Clone, Debug, PartialEq, Eq)]
pub struct Token {
    pub kind: TokenKind,
    pub text: String,
}

/// A named capture point, written `$ident`.
#[derive(Clone, Debug, PartialEq, Eq)]
pub struct Placeholder {
    /// The name of the placeholder: `a` for `$a`.
    pub ident: String,
    /// The identifier written in place of the placeholder when the pattern is
    /// handed to the grammar parser.
    pub stand_in_name: String,
}

/// A part of a pattern or template.
#[derive(Clone, Debug, PartialEq, Eq)]
pub enum PatternElement {
    Token(Token),
    Placeholder(Placeholder),
}

/// A search pattern before it is read as syntax: its tokens, whitespace as well,
/// and its placeholders.
#[derive(Debug)]
pub struct RawSearchPattern {
    pub tokens: Vec<PatternElement>,
}

/// The kinds of syntax that a pattern can be.
#[derive(Clone, Copy, Debug, PartialEq, Eq, Structural)]
pub enum FragmentKind {
    Expr,
    TypeRef,
    Item,
    Path,
    Pattern,
}

/// A search pattern with every kind of syntax that its text parses as. At least one
/// of `expr`, `type_ref`, `item`, `path` and `pattern` is present. Each present one
/// is the tree of a whole source file: the pattern's text, with stand-ins for
/// placeholders, put in a context where it stands as that kind of syntax (see
/// `parses_as` for what that accepts).
#[derive(Debug)]
pub struct SsrPattern {
    pub raw: RawSearchPattern,
    pub expr: Option<File>,
    pub type_ref: Option<File>,
    pub item: Option<File>,
    pub path: Option<File>,
    pub pattern: Option<File>,
    /// Each placeholder under its stand-in name, in the order of the pattern.
    pub placeholders_by_stand_in: Vec<(String, Placeholder)>,
}

/// A replacement template: every token of its text, whitespace as well.
#[derive(Clone, Debug)]
pub struct SsrTemplate {
    pub tokens: Vec<PatternElement>,
}

/// A rule: what to search for and what to put in its place.
#[derive(Debug)]
pub struct SsrRule {
    pub pattern: SsrPattern,
    pub template: SsrTemplate,
}

/// A part of a pattern or template as plain values: a token's kind and text, or a
/// placeholder's name.
pub enum ElementView {
    Token(TokenKind, Seq<char>),
    Placeholder(Seq<char>),
}

impl View for PatternElement {
    type V = ElementView;

    open spec fn view(&self) -> ElementView {
        match self {
            PatternElement::Token(t) => ElementView::Token(t.kind, t.text@),
            PatternElement::Placeholder(p) => ElementView::Placeholder(p.ident@),
        }
    }
}

pub open spec fn elements_view(s: Seq<PatternElement>) -> Seq<ElementView> {
    s.map_values(|e: PatternElement| e@)
}

/// A token as plain values: its kind and text.
pub type TokenView = (TokenKind, Seq<char>);

pub open spec fn tokens_view(s: Seq<Token>) -> Seq<TokenView> {
    s.map_values(|t: Token| (t.kind, t.text@))
}

/// The identifier that stands for placeholder `ident` in text handed to the parser.
pub open spec fn stand_in_of(ident: Seq<char>) -> Seq<char> {
    "__placeholder_"@ + ident
}

/// Every placeholder among `s` carries the stand-in of its own name.
pub open spec fn stand_ins_ok(s: Seq<PatternElement>) -> bool {
    forall|i: int|
        0 <= i < s.len() ==> match #[trigger] s[i] {
            PatternElement::Placeholder(p) => p.stand_in_name@ == stand_in_of(p.ident@),
            PatternElement::Token(_) => true,
        }
}

/// The UTF-8 encoding of a text.
pub open spec fn bytes_of(s: Seq<char>) -> Seq<u8> {
    encode_utf8(s)
}

/// The bytes of the tokens' texts, one after the other.
pub open spec fn token_bytes(ts: Seq<Token>) -> Seq<u8>
    decreases ts.len(),
{
    if ts.len() == 0 {
        seq![]
    } else {
        token_bytes(ts.drop_last()) + bytes_of(ts.last().text@)
    }
}

/// The lexed lengths cut `b` at character boundaries and cover it exactly.
pub open spec fn splits(b: Seq<u8>, lx: Seq<LexedToken>) -> bool
    decreases lx.len(),
{
    if lx.len() == 0 {
        b.len() == 0
    } else {
        lx[0].len <= b.len() && is_char_boundary(b, lx[0].len as int) && splits(
            b.subrange(lx[0].len as int, b.len() as int),
            lx.drop_first(),
        )
    }
}

/// The tokens that the lexed lengths cut from `b`.
pub open spec fn cut_tokens(b: Seq<u8>, lx: Seq<LexedToken>) -> Seq<TokenView>
    decreases lx.len(),
{
    if lx.len() == 0 || lx[0].len > b.len() {
        seq![]
    } else {
        seq![(lx[0].kind, decode_utf8(b.subrange(0, lx[0].len as int)))] + cut_tokens(
            b.subrange(lx[0].len as int, b.len() as int),
            lx.drop_first(),
        )
    }
}

/// The lexer reads `text` without an unknown character.
pub open spec fn lexes_cleanly(text: Seq<char>) -> bool {
    forall|i: int| 0 <= i < lexed(text).len() ==> #[trigger] lexed(text)[i].kind != TokenKind::Error
}

/// Every character literal among the tokens is one character, neither a quote nor a
/// backslash, between two quotes.
pub open spec fn char_literals_plain(ts: Seq<TokenView>) -> bool {
    forall|i: int|
        0 <= i < ts.len() && #[trigger] ts[i].0 == TokenKind::Char ==> plain_char_literal(ts[i].1)
}

/// A character escaped by a backslash in a plain character literal.
pub open spec fn simple_escape(c: char) -> bool {
    c == 'n' || c == 'r' || c == 't' || c == '\\' || c == '0' || c == '\'' || c == '"'
}

/// A character literal that ends at its closing quote: one character other than a
/// quote or backslash, or a backslash and a simple escape, between two quotes.
pub open spec fn plain_char_literal(t: Seq<char>) -> bool {
    ||| t.len() == 3 && t[0] == '\'' && t[2] == '\'' && t[1] != '\'' && t[1] != '\\'
    ||| t.len() == 4 && t[0] == '\'' && t[1] == '\\' && simple_escape(t[2]) && t[3] == '\''
}

/// The most tokens that the parser is handed at once. The parser stops with a panic
/// after ten million lookahead steps over one parse, and descends one level of
/// recursion per nested construct, which needs at least one token; this bound keeps
/// both the steps and the depth of recursion small.
pub const MAX_PARSE_TOKENS: usize = 256;

/// Whether `t` is a plain character literal.
fn is_plain_char_literal(t: &str) -> (r: bool)
    ensures
        r == plain_char_literal(t@),
{
    let n = t.unicode_len();
    if n == 3 {
        t.get_char(0) == '\'' && t.get_char(2) == '\'' && t.get_char(1) != '\''
            && t.get_char(1) != '\\'
    } else if n == 4 {
        let c = t.get_char(2);
        t.get_char(0) == '\'' && t.get_char(1) == '\\' && t.get_char(3) == '\'' && (c == 'n'
            || c == 'r' || c == 't' || c == '\\' || c == '0' || c == '\'' || c == '"')
    } else {
        false
    }
}

/// Unicode white space: the characters with the `White_Space` property.
pub open spec fn white_space(c: char) -> bool {
    ||| '\u{9}' <= c <= '\u{d}'
    ||| c == ' ' || c == '\u{85}' || c == '\u{a0}' || c == '\u{1680}'
    ||| '\u{2000}' <= c <= '\u{200a}'
    ||| c == '\u{2028}' || c == '\u{2029}' || c == '\u{202f}' || c == '\u{205f}' || c == '\u{3000}'
}

/// Whether `c` is Unicode white space.
pub fn is_white_space(c: char) -> (r: bool)
    ensures
        r == white_space(c),
{
    ('\u{9}' <= c && c <= '\u{d}') || c == ' ' || c == '\u{85}' || c == '\u{a0}' || c == '\u{1680}'
        || ('\u{2000}' <= c && c <= '\u{200a}') || c == '\u{2028}' || c == '\u{2029}'
        || c == '\u{202f}' || c == '\u{205f}' || c == '\u{3000}'
}

/// The tokens of `text`, with their texts.
pub open spec fn tokens_of(text: Seq<char>) -> Seq<TokenView> {
    cut_tokens(bytes_of(text), lexed(text))
}

/// An error as plain values: its kind, the names it concerns, and its message.
pub type ErrorView = (SsrErrorKind, Seq<Seq<char>>, Seq<char>);

pub open spec fn names_view(s: Seq<String>) -> Seq<Seq<char>> {
    s.map_values(|n: String| n@)
}

pub open spec fn error_view(e: SsrError) -> ErrorView {
    (e.kind, names_view(e.names@), e.message@)
}

/// The error for a pattern or template that the lexer cannot read.
pub open spec fn tokenize_error() -> ErrorView {
    (SsrErrorKind::Tokenize, seq![], "Failed to parse pattern: unexpected character"@)
}

/// The error for a `$` at the end of the text.
pub open spec fn nameless_placeholder_error() -> ErrorView {
    (SsrErrorKind::PlaceholderSyntax, seq![], "Placeholder ($) with no name"@)
}

/// The error for a `$` followed by something other than a name.
pub open spec fn malformed_placeholder_error() -> ErrorView {
    (SsrErrorKind::PlaceholderSyntax, seq![], "Placeholders should be $name"@)
}

/// The error for a placeholder name used a second time.
pub open spec fn duplicate_error(name: Seq<char>) -> ErrorView {
    (SsrErrorKind::DuplicatePlaceholder, seq![name], "Name `"@ + name + "` repeats more than once"@)
}

impl Placeholder {
    pub fn new(name: String) -> (r: Placeholder)
        ensures
            r.ident@ == name@,
            r.stand_in_name@ == stand_in_of(name@),
    {
        let mut stand_in_name = String::from_str("__placeholder_");
        stand_in_name.append(name.as_str());
        Placeholder { stand_in_name, ident: name }
    }
}

/// Splits `source` into tokens whose texts are the exact pieces of the source.
pub fn tokenize(source: &str) -> (r: Result<Vec<Token>, SsrError>)
    ensures
        r is Ok <==> lexes_cleanly(source@),
        r matches Ok(ts) ==> tokens_view(ts@) == tokens_of(source@) && token_bytes(ts@) == bytes_of(
            source@,
        ),
        r matches Err(e) ==> error_view(e) == tokenize_error(),
{
    let lx = lex(source);
    let mut i: usize = 0;
    while i < lx.len()
        invariant
            lx@ == lexed(source@),
            i <= lx@.len(),
            forall|j: int| 0 <= j < i ==> #[trigger] lx@[j].kind != TokenKind::Error,
        decreases lx@.len() - i,
    {
        if lx[i].kind == TokenKind::Error {
            return Err(SsrError::plain(SsrErrorKind::Tokenize, "Failed to parse pattern: unexpected character"));
        }
        i = i + 1;
    }
    let ghost b = bytes_of(source@);
    let mut rest: &str = source;
    let mut tokens: Vec<Token> = Vec::new();
    let mut i: usize = 0;
    assert(lx@.skip(0) =~= lx@);
    assert(b.subrange(0, b.len() as int) =~= b);
    while i < lx.len()
        invariant
            lx@ == lexed(source@),
            b == bytes_of(source@),
            i <= lx@.len(),
            b == token_bytes(tokens@) + rest.spec_bytes(),
            rest.spec_bytes() == b.subrange(token_bytes(tokens@).len() as int, b.len() as int),
            splits(b, lx@),
            splits(rest.spec_bytes(), lx@.skip(i as int)),
            cut_tokens(b, lx@) == tokens_view(tokens@) + cut_tokens(rest.spec_bytes(), lx@.skip(i as int)),
        decreases lx@.len() - i,
    {
        let len = lx[i].len;
        assert(lx@.skip(i as int)[0] == lx@[i as int]);
        assert(lx@.skip(i as int).drop_first() =~= lx@.skip(i + 1));
        proof {
            vstd::utf8::encode_utf8_valid_utf8(rest@);
        }
        let ghost rb = rest.spec_bytes();
        let (head, tail) = rest.split_at(len);
        let text = head.to_owned();
        proof {
            encode_utf8_decode_utf8(head@);
        }
        let ghost before = tokens@;
        tokens.push(Token { kind: lx[i].kind, text });
        assert(tokens@.drop_last() =~= before);
        assert(tokens_view(tokens@) =~= tokens_view(before).push((lx@[i as int].kind, head@)));
        assert(token_bytes(tokens@) =~= token_bytes(before) + rb.subrange(0, len as int));
        assert(b =~= token_bytes(tokens@) + tail.spec_bytes());
        rest = tail;
        i = i + 1;
    }
    assert(lx@.skip(i as int) =~= Seq::<LexedToken>::empty());
    assert(rest.spec_bytes().len() == 0);
    assert(rest@.len() == 0) by {
        if rest@.len() > 0 {
            assert(rest.spec_bytes() =~= vstd::utf8::encode_scalar(rest@[0] as u32) + encode_utf8(rest@.drop_first()));
        }
    }
    assert(rest@ =~= Seq::<char>::empty());
    assert(tokens_view(tokens@) + Seq::<TokenView>::empty() =~= tokens_view(tokens@));
    assert(token_bytes(tokens@) + Seq::<u8>::empty() =~= token_bytes(tokens@));
    Ok(tokens)
}

/// `pre` in front of the elements of an outcome; an error stays as it is.
pub open spec fn prepend(pre: Seq<ElementView>, r: Result<Seq<ElementView>, ErrorView>) -> Result<
    Seq<ElementView>,
    ErrorView,
> {
    match r {
        Ok(v) => Ok(pre + v),
        Err(e) => Err(e),
    }
}

/// Reads placeholders in tokens, left to right: `$` and the identifier after it
/// make a placeholder, whose name must not be among `seen` or earlier ones; every
/// other token stays as it is.
pub open spec fn scan(ts: Seq<TokenView>, seen: Seq<Seq<char>>) -> Result<Seq<ElementView>, ErrorView>
    decreases ts.len(),
{
    if ts.len() == 0 {
        Ok(seq![])
    } else if ts[0].0 == TokenKind::Dollar {
        if ts.len() == 1 {
            Err(nameless_placeholder_error())
        } else if ts[1].0 != TokenKind::Ident {
            Err(malformed_placeholder_error())
        } else if seen.contains(ts[1].1) {
            Err(duplicate_error(ts[1].1))
        } else {
            prepend(seq![ElementView::Placeholder(ts[1].1)], scan(ts.skip(2), seen.push(ts[1].1)))
        }
    } else {
        prepend(seq![ElementView::Token(ts[0].0, ts[0].1)], scan(ts.skip(1), seen))
    }
}

/// What reading `text` as a pattern or template gives: its elements, or an error.
pub open spec fn pattern_outcome(text: Seq<char>) -> Result<Seq<ElementView>, ErrorView> {
    if lexes_cleanly(text) {
        scan(tokens_of(text), seq![])
    } else {
        Err(tokenize_error())
    }
}

proof fn lemma_prepend_twice(a: Seq<ElementView>, b: Seq<ElementView>, r: Result<Seq<ElementView>, ErrorView>)
    ensures
        prepend(a, prepend(b, r)) == prepend(a + b, r),
{
    if let Ok(v) = r {
        assert(a + (b + v) =~= (a + b) + v);
    }
}

/// The placeholder whose name is the token at `i`, just after a `$`.
fn parse_placeholder(tokens: &Vec<Token>, i: usize) -> (r: Result<Placeholder, SsrError>)
    ensures
        i < tokens@.len() && tokens@[i as int].kind == TokenKind::Ident <==> r is Ok,
        r matches Ok(p) ==> p.ident@ == tokens@[i as int].text@ && p.stand_in_name@ == stand_in_of(p.ident@),
        r matches Err(e) ==> error_view(e) == if i >= tokens@.len() {
            nameless_placeholder_error()
        } else {
            malformed_placeholder_error()
        },
{
    if i >= tokens.len() {
        return Err(SsrError::plain(SsrErrorKind::PlaceholderSyntax, "Placeholder ($) with no name"));
    }
    if tokens[i].kind != TokenKind::Ident {
        return Err(SsrError::plain(SsrErrorKind::PlaceholderSyntax, "Placeholders should be $name"));
    }
    Ok(Placeholder::new(tokens[i].text.clone()))
}

/// Whether `name` is among `names`.
fn contains_name(names: &Vec<String>, name: &String) -> (r: bool)
    ensures
        r == names_view(names@).contains(name@),
{
    let mut i: usize = 0;
    while i < names.len()
        invariant
            i <= names@.len(),
            forall|j: int| 0 <= j < i ==> names@[j]@ != name@,
        decreases names@.len() - i,
    {
        if names[i] == *name {
            assert(names_view(names@)[i as int] == name@);
            return true;
        }
        i = i + 1;
    }
    assert(!names_view(names@).contains(name@)) by {
        if names_view(names@).contains(name@) {
            let j = choose|j: int| 0 <= j < names_view(names@).len() && names_view(names@)[j] == name@;
            assert(names@[j]@ == name@);
        }
    }
    false
}

/// Lexes `pattern_str` and reads its placeholders.
pub fn parse_pattern(pattern_str: &str) -> (r: Result<Vec<PatternElement>, SsrError>)
    ensures
        r matches Ok(v) ==> pattern_outcome(pattern_str@) == Ok::<Seq<ElementView>, ErrorView>(
            elements_view(v@),
        ) && stand_ins_ok(v@),
        r matches Err(e) ==> pattern_outcome(pattern_str@) == Err::<Seq<ElementView>, ErrorView>(
            error_view(e),
        ),
{
    let tokens = match tokenize(pattern_str) {
        Ok(tokens) => tokens,
        Err(e) => { return Err(e); },
    };
    let ghost tv = tokens_view(tokens@);
    let mut res: Vec<PatternElement> = Vec::new();
    let mut seen: Vec<String> = Vec::new();
    let mut i: usize = 0;
    assert(tv.skip(0) =~= tv);
    assert(elements_view(res@) + Seq::<ElementView>::empty() =~= Seq::<ElementView>::empty());
    assert(prepend(elements_view(res@), scan(tv, names_view(seen@))) == scan(tv, seq![])) by {
        assert(names_view(seen@) =~= Seq::<Seq<char>>::empty());
        if let Ok(v) = scan(tv, seq![]) {
            assert(Seq::<ElementView>::empty() + v =~= v);
        }
    }
    while i < tokens.len()
        invariant
            tv == tokens_view(tokens@),
            tv == tokens_of(pattern_str@),
            lexes_cleanly(pattern_str@),
            i <= tv.len(),
            scan(tv, seq![]) == prepend(elements_view(res@), scan(tv.skip(i as int), names_view(seen@))),
            stand_ins_ok(res@),
        decreases tv.len() - i,
    {
        let ghost rest = tv.skip(i as int);
        assert(rest[0] == tv[i as int]);
        let ghost before = res@;
        if tokens[i].kind == TokenKind::Dollar {
            let placeholder = match parse_placeholder(&tokens, i + 1) {
                Ok(p) => p,
                Err(e) => {
                    assert(rest.len() == 1 || rest[1] == tv[i + 1]);
                    return Err(e);
                },
            };
            assert(rest[1] == tv[i + 1]);
            if contains_name(&seen, &placeholder.ident) {
                let mut message = String::from_str("Name `");
                message.append(placeholder.ident.as_str());
                message.append("` repeats more than once");
                let mut names: Vec<String> = Vec::new();
                names.push(placeholder.ident);
                assert(names_view(names@) =~= seq![rest[1].1]);
                return Err(SsrError::new(SsrErrorKind::DuplicatePlaceholder, message, names));
            }
            let ghost name = placeholder.ident@;
            let ghost old_seen = names_view(seen@);
            assert(scan(rest, old_seen) == prepend(seq![ElementView::Placeholder(name)], scan(rest.skip(2), old_seen.push(name))));
            seen.push(placeholder.ident.clone());
            assert(names_view(seen@) =~= old_seen.push(name));
            res.push(PatternElement::Placeholder(placeholder));
            assert(rest.skip(2) =~= tv.skip(i + 2));
            assert(elements_view(res@) =~= elements_view(before) + seq![ElementView::Placeholder(name)]);
            proof {
                lemma_prepend_twice(elements_view(before), seq![ElementView::Placeholder(name)], scan(tv.skip(i + 2), names_view(seen@)));
            }
            i = i + 2;
        } else {
            let token = Token { kind: tokens[i].kind, text: tokens[i].text.clone() };
            assert(scan(rest, names_view(seen@)) == prepend(seq![ElementView::Token(tv[i as int].0, tv[i as int].1)], scan(rest.skip(1), names_view(seen@))));
            res.push(PatternElement::Token(token));
            assert(rest.skip(1) =~= tv.skip(i + 1));
            assert(elements_view(res@) =~= elements_view(before) + seq![ElementView::Token(tv[i as int].0, tv[i as int].1)]);
            proof {
                lemma_prepend_twice(elements_view(before), seq![ElementView::Token(tv[i as int].0, tv[i as int].1)], scan(tv.skip(i + 1), names_view(seen@)));
            }
            i = i + 1;
        }
    }
    assert(tv.skip(i as int) =~= Seq::<TokenView>::empty());
    assert(elements_view(res@) + Seq::<ElementView>::empty() =~= elements_view(res@));
    Ok(res)
}

/// The text handed to the parser for a pattern: each token's text, each
/// placeholder's stand-in.
pub open spec fn rust_code(es: Seq<ElementView>) -> Seq<char>
    decreases es.len(),
{
    if es.len() == 0 {
        seq![]
    } else {
        rust_code(es.drop_last()) + match es.last() {
            ElementView::Token(_, t) => t,
            ElementView::Placeholder(n) => stand_in_of(n),
        }
    }
}

/// The names of the placeholders among `es`, in order.
pub open spec fn placeholder_names(es: Seq<ElementView>) -> Seq<Seq<char>>
    decreases es.len(),
{
    if es.len() == 0 {
        seq![]
    } else {
        placeholder_names(es.drop_last()) + match es.last() {
            ElementView::Token(_, _) => seq![],
            ElementView::Placeholder(n) => seq![n],
        }
    }
}

impl RawSearchPattern {
    pub fn from_str(pattern_str: &str) -> (r: Result<RawSearchPattern, SsrError>)
        ensures
            r matches Ok(p) ==> pattern_outcome(pattern_str@) == Ok::<Seq<ElementView>, ErrorView>(
                elements_view(p.tokens@),
            ) && stand_ins_ok(p.tokens@),
            r matches Err(e) ==> pattern_outcome(pattern_str@) == Err::<Seq<ElementView>, ErrorView>(
                error_view(e),
            ),
    {
        match parse_pattern(pattern_str) {
            Ok(tokens) => Ok(RawSearchPattern { tokens }),
            Err(e) => Err(e),
        }
    }

    /// This pattern as source text for the parser, with stand-ins for placeholders.
    pub fn as_rust_code(&self) -> (r: String)
        requires
            stand_ins_ok(self.tokens@),
        ensures
            r@ == rust_code(elements_view(self.tokens@)),
    {
        let ghost es = elements_view(self.tokens@);
        let mut res = String::new();
        let mut i: usize = 0;
        while i < self.tokens.len()
            invariant
                es == elements_view(self.tokens@),
                stand_ins_ok(self.tokens@),
                i <= es.len(),
                res@ == rust_code(es.subrange(0, i as int)),
            decreases es.len() - i,
        {
            assert(es.subrange(0, i + 1).drop_last() =~= es.subrange(0, i as int));
            match &self.tokens[i] {
                PatternElement::Token(token) => res.append(token.text.as_str()),
                PatternElement::Placeholder(placeholder) => {
                    assert(placeholder.stand_in_name@ == stand_in_of(placeholder.ident@));
                    res.append(placeholder.stand_in_name.as_str())
                },
            }
            i = i + 1;
        }
        assert(es.subrange(0, i as int) =~= es);
        res
    }

    /// Each placeholder of this pattern under its stand-in name, once per name, in
    /// the order of first appearance.
    pub fn placeholders_by_stand_in(&self) -> (r: Vec<(String, Placeholder)>)
        requires
            stand_ins_ok(self.tokens@),
        ensures
            r@.len() == distinct(placeholder_names(elements_view(self.tokens@))).len(),
            forall|i: int|
                0 <= i < r@.len() ==> {
                    let n = #[trigger] distinct(placeholder_names(elements_view(self.tokens@)))[i];
                    r@[i].0@ == stand_in_of(n) && r@[i].1.ident@ == n && r@[i].1.stand_in_name@
                        == stand_in_of(n)
                },
            forall|i: int, j: int| 0 <= i < j < r@.len() ==> #[trigger] r@[i].0@ != #[trigger] r@[j].0@,
    {
        let ghost es = elements_view(self.tokens@);
        let mut res: Vec<(String, Placeholder)> = Vec::new();
        let mut seen: Vec<String> = Vec::new();
        let mut i: usize = 0;
        while i < self.tokens.len()
            invariant
                es == elements_view(self.tokens@),
                stand_ins_ok(self.tokens@),
                i <= es.len(),
                names_view(seen@) == distinct(placeholder_names(es.subrange(0, i as int))),
                res@.len() == seen@.len(),
                forall|j: int|
                    0 <= j < res@.len() ==> {
                        let n = #[trigger] distinct(placeholder_names(es.subrange(0, i as int)))[j];
                        res@[j].0@ == stand_in_of(n) && res@[j].1.ident@ == n
                            && res@[j].1.stand_in_name@ == stand_in_of(n)
                    },
            decreases es.len() - i,
        {
            let ghost prev = placeholder_names(es.subrange(0, i as int));
            assert(es.subrange(0, i + 1).drop_last() =~= es.subrange(0, i as int));
            if let PatternElement::Placeholder(placeholder) = &self.tokens[i] {
                assert(placeholder_names(es.subrange(0, i + 1)) =~= prev.push(placeholder.ident@));
                assert(prev.push(placeholder.ident@).drop_last() =~= prev);
                if !contains_name(&seen, &placeholder.ident) {
                    assert(placeholder.stand_in_name@ == stand_in_of(placeholder.ident@));
                    let entry = Placeholder {
                        ident: placeholder.ident.clone(),
                        stand_in_name: placeholder.stand_in_name.clone(),
                    };
                    res.push((placeholder.stand_in_name.clone(), entry));
                    let ghost before = seen@;
                    seen.push(placeholder.ident.clone());
                    assert(names_view(seen@) =~= names_view(before).push(placeholder.ident@));
                }
            } else {
                assert(placeholder_names(es.subrange(0, i + 1)) =~= prev);
            }
            i = i + 1;
        }
        assert(es.subrange(0, i as int) =~= es);
        proof {
            lemma_distinct(placeholder_names(es));
            assert forall|a: int, b: int| 0 <= a < b < res@.len() implies #[trigger] res@[a].0@ != #[trigger] res@[b].0@ by {
                let d = distinct(placeholder_names(es));
                assert(d[a] != d[b]);
                if res@[a].0@ == res@[b].0@ {
                    assert(stand_in_of(d[a]).skip("__placeholder_"@.len() as int) =~= d[a]);
                    assert(stand_in_of(d[b]).skip("__placeholder_"@.len() as int) =~= d[b]);
                }
            }
        }
        res
    }
}

/// The items of `s`, each at its first appearance only.
pub open spec fn distinct(s: Seq<Seq<char>>) -> Seq<Seq<char>>
    decreases s.len(),
{
    if s.len() == 0 {
        seq![]
    } else {
        let d = distinct(s.drop_last());
        if d.contains(s.last()) {
            d
        } else {
            d.push(s.last())
        }
    }
}

proof fn lemma_distinct(s: Seq<Seq<char>>)
    ensures
        distinct(s).no_duplicates(),
    decreases s.len(),
{
    if s.len() > 0 {
        lemma_distinct(s.drop_last());
    }
}

/// What stands before a pattern's text so that the parser reads it as `kind`.
pub open spec fn fragment_prefix(kind: FragmentKind) -> Seq<char> {
    match kind {
        FragmentKind::Expr => "fn __ssr_fragment() { let _ = "@,
        FragmentKind::TypeRef => "type __SsrFragment = "@,
        FragmentKind::Item => "mod __ssr_fragment { "@,
        FragmentKind::Path => "use "@,
        FragmentKind::Pattern => "fn __ssr_fragment() { let "@,
    }
}

/// What stands after a pattern's text so that the parser reads it as `kind`.
pub open spec fn fragment_suffix(kind: FragmentKind) -> Seq<char> {
    match kind {
        FragmentKind::Expr => "; }"@,
        FragmentKind::TypeRef => ";"@,
        FragmentKind::Item => " }"@,
        FragmentKind::Path => ";"@,
        FragmentKind::Pattern => "; }"@,
    }
}

/// The text handed to the parser for `code` read as `kind`: `code` in a context
/// where that kind of syntax stands.
pub open spec fn fragment_source(kind: FragmentKind, code: Seq<char>) -> Seq<char> {
    fragment_prefix(kind) + code + fragment_suffix(kind)
}

/// The bracket depth after the first `n` tokens.
pub open spec fn depth_after(ts: Seq<TokenView>, n: int) -> int
    decreases n,
{
    if n <= 0 {
        0
    } else {
        depth_after(ts, n - 1) + match ts[n - 1].0 {
            TokenKind::Open(_) => 1int,
            TokenKind::Close(_) => -1int,
            _ => 0int,
        }
    }
}

/// The tokens stay within the context of `kind`: brackets balance and never close
/// more than they opened, and outside brackets there is no `;` (but in an item) and
/// no lone `=` (in a pattern).
pub open spec fn fits_context(kind: FragmentKind, ts: Seq<TokenView>) -> bool {
    &&& depth_after(ts, ts.len() as int) == 0
    &&& forall|n: int| 0 <= n <= ts.len() ==> #[trigger] depth_after(ts, n) >= 0
    &&& forall|i: int|
        0 <= i < ts.len() && #[trigger] depth_after(ts, i) == 0 ==> (kind != FragmentKind::Item
            ==> ts[i].0 != TokenKind::Semi) && (kind == FragmentKind::Pattern ==> ts[i].0
            != TokenKind::Eq)
}

/// `code` is non-empty, its own tokens stay within the context of `kind`, and put in
/// that context it makes a source file that lexes cleanly, has only plain character
/// literals and few enough tokens, and parses without error. The parser at hand
/// reads whole source files only, so this is what "parses as `kind`" means here. A
/// path context accepts use trees (`a::{b, c}`) but not turbofish paths
/// (`Vec::<u8>`).
pub open spec fn parses_as(kind: FragmentKind, code: Seq<char>) -> bool {
    let src = fragment_source(kind, code);
    &&& code.len() > 0
    &&& lexes_cleanly(code)
    &&& fits_context(kind, tokens_of(code))
    &&& lexes_cleanly(src)
    &&& char_literals_plain(tokens_of(src))
    &&& tokens_of(src).len() <= MAX_PARSE_TOKENS
    &&& parse_error_count(src) == 0
}

/// `code` parses as at least one of the kinds of syntax.
pub open spec fn parses_as_some_kind(code: Seq<char>) -> bool {
    ||| parses_as(FragmentKind::Expr, code)
    ||| parses_as(FragmentKind::TypeRef, code)
    ||| parses_as(FragmentKind::Item, code)
    ||| parses_as(FragmentKind::Path, code)
    ||| parses_as(FragmentKind::Pattern, code)
}

/// The error, if any, that compiling `text` as a search pattern gives.
pub open spec fn pattern_error(text: Seq<char>) -> Option<ErrorView> {
    match pattern_outcome(text) {
        Err(e) => Some(e),
        Ok(es) => if parses_as_some_kind(rust_code(es)) {
            None
        } else {
            Some(
                (
                    SsrErrorKind::InvalidPattern,
                    seq![],
                    "Pattern is not a valid Rust expression, type, item, path or pattern"@,
                ),
            )
        },
    }
}

/// The error, if any, that reading `text` as a replacement template gives.
pub open spec fn template_error(text: Seq<char>) -> Option<ErrorView> {
    match pattern_outcome(text) {
        Err(e) => Some(e),
        Ok(es) => if parses_as_some_kind(rust_code(es)) {
            None
        } else {
            Some(
                (
                    SsrErrorKind::InvalidTemplate,
                    seq![],
                    "Replacement is not a valid Rust expression, type, item, path or pattern"@,
                ),
            )
        },
    }
}

fn fragment_prefix_text(kind: FragmentKind) -> (r: &'static str)
    ensures
        r@ == fragment_prefix(kind),
{
    match kind {
        FragmentKind::Expr => "fn __ssr_fragment() { let _ = ",
        FragmentKind::TypeRef => "type __SsrFragment = ",
        FragmentKind::Item => "mod __ssr_fragment { ",
        FragmentKind::Path => "use ",
        FragmentKind::Pattern => "fn __ssr_fragment() { let ",
    }
}

fn fragment_suffix_text(kind: FragmentKind) -> (r: &'static str)
    ensures
        r@ == fragment_suffix(kind),
{
    match kind {
        FragmentKind::Expr => "; }",
        FragmentKind::TypeRef => ";",
        FragmentKind::Item => " }",
        FragmentKind::Path => ";",
        FragmentKind::Pattern => "; }",
    }
}

/// Whether every character literal among `tokens` is one plain character in quotes.
fn char_literals_are_plain(tokens: &Vec<Token>) -> (r: bool)
    ensures
        r == char_literals_plain(tokens_view(tokens@)),
{
    let ghost tv = tokens_view(tokens@);
    let mut i: usize = 0;
    while i < tokens.len()
        invariant
            tv == tokens_view(tokens@),
            i <= tv.len(),
            char_literals_plain(tv.subrange(0, i as int)),
        decreases tv.len() - i,
    {
        let t = &tokens[i];
        if t.kind == TokenKind::Char {
            if !is_plain_char_literal(t.text.as_str()) {
                assert(tv[i as int].0 == TokenKind::Char);
                return false;
            }
        }
        assert forall|j: int| 0 <= j < i + 1 && #[trigger] tv.subrange(0, i + 1)[j].0 == TokenKind::Char implies plain_char_literal(tv.subrange(0, i + 1)[j].1) by {
            if j < i {
                assert(tv.subrange(0, i + 1)[j] == tv.subrange(0, i as int)[j]);
            }
        }
        i = i + 1;
    }
    assert(tv.subrange(0, i as int) =~= tv);
    true
}

/// Whether `tokens` stay within the context of `kind`.
fn tokens_fit_context(kind: FragmentKind, tokens: &Vec<Token>) -> (r: bool)
    ensures
        r == fits_context(kind, tokens_view(tokens@)),
{
    let ghost tv = tokens_view(tokens@);
    let mut depth: usize = 0;
    let mut i: usize = 0;
    while i < tokens.len()
        invariant
            tv == tokens_view(tokens@),
            i <= tv.len(),
            depth as int == depth_after(tv, i as int),
            depth <= i,
            forall|n: int| 0 <= n <= i ==> #[trigger] depth_after(tv, n) >= 0,
            forall|j: int|
                0 <= j < i && #[trigger] depth_after(tv, j) == 0 ==> (kind != FragmentKind::Item
                    ==> tv[j].0 != TokenKind::Semi) && (kind == FragmentKind::Pattern ==> tv[j].0
                    != TokenKind::Eq),
        decreases tv.len() - i,
    {
        let k = tokens[i].kind;
        if depth == 0 && ((kind != FragmentKind::Item && k == TokenKind::Semi) || (kind
            == FragmentKind::Pattern && k == TokenKind::Eq)) {
            return false;
        }
        match k {
            TokenKind::Open(_) => {
                depth = depth + 1;
            },
            TokenKind::Close(_) => {
                if depth == 0 {
                    assert(depth_after(tv, i + 1) < 0);
                    return false;
                }
                depth = depth - 1;
            },
            _ => {},
        }
        i = i + 1;
    }
    depth == 0
}

/// The whole source file that `code` makes in the context of `kind`, when it parses
/// as that without error.
pub fn parse_fragment(kind: FragmentKind, code: &str) -> (r: Option<File>)
    ensures
        r is Some <==> parses_as(kind, code@),
{
    if code.is_empty() {
        return None;
    }
    match tokenize(code) {
        Err(_) => { return None; },
        Ok(tokens) => {
            if !tokens_fit_context(kind, &tokens) {
                return None;
            }
        },
    }
    let mut text = String::from_str(fragment_prefix_text(kind));
    text.append(code);
    text.append(fragment_suffix_text(kind));
    match tokenize(text.as_str()) {
        Err(_) => { return None; },
        Ok(tokens) => {
            if tokens.len() > MAX_PARSE_TOKENS || !char_literals_are_plain(&tokens) {
                return None;
            }
        },
    }
    let (file, errors) = parse_source_file(text.as_str());
    if errors == 0 {
        Some(file)
    } else {
        None
    }
}

impl SsrPattern {
    /// Compiles a search pattern, keeping every kind of syntax that it parses as.
    pub fn from_str(pattern_str: &str) -> (r: Result<SsrPattern, SsrError>)
        ensures
            r is Ok <==> pattern_error(pattern_str@) is None,
            r matches Err(e) ==> pattern_error(pattern_str@) == Some(error_view(e)),
            r matches Ok(p) ==> {
                let es = elements_view(p.raw.tokens@);
                let code = rust_code(es);
                &&& pattern_outcome(pattern_str@) == Ok::<Seq<ElementView>, ErrorView>(es)
                &&& stand_ins_ok(p.raw.tokens@)
                &&& p.expr is Some <==> parses_as(FragmentKind::Expr, code)
                &&& p.type_ref is Some <==> parses_as(FragmentKind::TypeRef, code)
                &&& p.item is Some <==> parses_as(FragmentKind::Item, code)
                &&& p.path is Some <==> parses_as(FragmentKind::Path, code)
                &&& p.pattern is Some <==> parses_as(FragmentKind::Pattern, code)
                &&& p.expr is Some || p.type_ref is Some || p.item is Some || p.path is Some
                    || p.pattern is Some
                &&& p.placeholders_by_stand_in@.len() == distinct(placeholder_names(es)).len()
                &&& forall|i: int|
                    0 <= i < p.placeholders_by_stand_in@.len() ==> {
                        let n = #[trigger] distinct(placeholder_names(es))[i];
                        &&& p.placeholders_by_stand_in@[i].0@ == stand_in_of(n)
                        &&& p.placeholders_by_stand_in@[i].1.ident@ == n
                        &&& p.placeholders_by_stand_in@[i].1.stand_in_name@ == stand_in_of(n)
                    }
                &&& forall|i: int, j: int|
                    0 <= i < j < p.placeholders_by_stand_in@.len()
                        ==> #[trigger] p.placeholders_by_stand_in@[i].0@
                        != #[trigger] p.placeholders_by_stand_in@[j].0@
            },
    {
        let raw = match RawSearchPattern::from_str(pattern_str) {
            Ok(raw) => raw,
            Err(e) => { return Err(e); },
        };
        let raw_str = raw.as_rust_code();
        let code = raw_str.as_str();
        let expr = parse_fragment(FragmentKind::Expr, code);
        let type_ref = parse_fragment(FragmentKind::TypeRef, code);
        let item = parse_fragment(FragmentKind::Item, code);
        let path = parse_fragment(FragmentKind::Path, code);
        let pattern = parse_fragment(FragmentKind::Pattern, code);
        if expr.is_none() && type_ref.is_none() && item.is_none() && path.is_none() && pattern.is_none() {
            return Err(SsrError::plain(
                SsrErrorKind::InvalidPattern,
                "Pattern is not a valid Rust expression, type, item, path or pattern",
            ));
        }
        let placeholders_by_stand_in = raw.placeholders_by_stand_in();
        Ok(SsrPattern { raw, expr, type_ref, item, path, pattern, placeholders_by_stand_in })
    }
}

impl SsrTemplate {
    /// Reads a replacement template, which must parse as some kind of syntax.
    pub fn from_str(pattern_str: &str) -> (r: Result<SsrTemplate, SsrError>)
        ensures
            r is Ok <==> template_error(pattern_str@) is None,
            r matches Err(e) ==> template_error(pattern_str@) == Some(error_view(e)),
            r matches Ok(t) ==> pattern_outcome(pattern_str@) == Ok::<Seq<ElementView>, ErrorView>(
                elements_view(t.tokens@),
            ) && stand_ins_ok(t.tokens@),
    {
        let tokens = match parse_pattern(pattern_str) {
            Ok(tokens) => tokens,
            Err(e) => { return Err(e); },
        };
        if SsrPattern::from_str(pattern_str).is_err() {
            return Err(SsrError::plain(
                SsrErrorKind::InvalidTemplate,
                "Replacement is not a valid Rust expression, type, item, path or pattern",
            ));
        }
        Ok(SsrTemplate { tokens })
    }
}

/// The names of placeholders that `template` uses and `pattern` does not define, in
/// the order of their first use, each once.
pub open spec fn undefined_names(pattern: Seq<ElementView>, template: Seq<ElementView>) -> Seq<
    Seq<char>,
>
    decreases template.len(),
{
    if template.len() == 0 {
        seq![]
    } else {
        let u = undefined_names(pattern, template.drop_last());
        match template.last() {
            ElementView::Placeholder(n) => if !placeholder_names(pattern).contains(n)
                && !u.contains(n) {
                u.push(n)
            } else {
                u
            },
            ElementView::Token(_, _) => u,
        }
    }
}

/// The names as `$a, $b`.
pub open spec fn dollar_list(u: Seq<Seq<char>>) -> Seq<char>
    decreases u.len(),
{
    if u.len() == 0 {
        seq![]
    } else if u.len() == 1 {
        "$"@ + u[0]
    } else {
        dollar_list(u.drop_last()) + ", "@ + "$"@ + u.last()
    }
}

/// The message of an undefined-placeholder error for names `u`.
pub open spec fn undefined_message(u: Seq<Seq<char>>) -> Seq<char> {
    "Replacement contains undefined placeholders: "@ + dollar_list(u)
}

/// Checks that the template of a rule uses only placeholders that its pattern defines.
pub fn validate_rule(rule: &SsrRule) -> (r: Result<(), SsrError>)
    ensures
        r is Ok <==> undefined_names(
            elements_view(rule.pattern.raw.tokens@),
            elements_view(rule.template.tokens@),
        ).len() == 0,
        r matches Err(e) ==> {
            let u = undefined_names(
                elements_view(rule.pattern.raw.tokens@),
                elements_view(rule.template.tokens@),
            );
            error_view(e) == (SsrErrorKind::UndefinedPlaceholder, u, undefined_message(u))
        },
{
    let ghost pe = elements_view(rule.pattern.raw.tokens@);
    let ghost te = elements_view(rule.template.tokens@);
    let mut defined: Vec<String> = Vec::new();
    let mut i: usize = 0;
    while i < rule.pattern.raw.tokens.len()
        invariant
            pe == elements_view(rule.pattern.raw.tokens@),
            i <= pe.len(),
            names_view(defined@) == placeholder_names(pe.subrange(0, i as int)),
        decreases pe.len() - i,
    {
        assert(pe.subrange(0, i + 1).drop_last() =~= pe.subrange(0, i as int));
        let ghost before = defined@;
        if let PatternElement::Placeholder(placeholder) = &rule.pattern.raw.tokens[i] {
            defined.push(placeholder.ident.clone());
            assert(names_view(defined@) =~= names_view(before) + seq![placeholder.ident@]);
        } else {
            assert(placeholder_names(pe.subrange(0, i + 1)) =~= placeholder_names(pe.subrange(0, i as int)) + Seq::<Seq<char>>::empty());
        }
        i = i + 1;
    }
    assert(pe.subrange(0, i as int) =~= pe);
    let mut undefined: Vec<String> = Vec::new();
    let mut message = String::from_str("Replacement contains undefined placeholders: ");
    let mut k: usize = 0;
    while k < rule.template.tokens.len()
        invariant
            pe == elements_view(rule.pattern.raw.tokens@),
            te == elements_view(rule.template.tokens@),
            names_view(defined@) == placeholder_names(pe),
            k <= te.len(),
            names_view(undefined@) == undefined_names(pe, te.subrange(0, k as int)),
            message@ == undefined_message(names_view(undefined@)),
        decreases te.len() - k,
    {
        assert(te.subrange(0, k + 1).drop_last() =~= te.subrange(0, k as int));
        if let PatternElement::Placeholder(placeholder) = &rule.template.tokens[k] {
            if !contains_name(&defined, &placeholder.ident) && !contains_name(&undefined, &placeholder.ident) {
                let ghost before = undefined@;
                let ghost old_message = message@;
                if undefined.len() > 0 {
                    message.append(", ");
                }
                message.append("$");
                message.append(placeholder.ident.as_str());
                undefined.push(placeholder.ident.clone());
                let ghost nv = names_view(undefined@);
                assert(nv =~= names_view(before).push(placeholder.ident@));
                assert(nv.drop_last() =~= names_view(before));
                proof {
                    if before.len() > 0 {
                        assert(dollar_list(nv) == dollar_list(names_view(before)) + ", "@ + "$"@ + placeholder.ident@);
                        assert(message@ =~= undefined_message(nv));
                    } else {
                        assert(names_view(before) =~= Seq::<Seq<char>>::empty());
                        assert(old_message =~= "Replacement contains undefined placeholders: "@);
                        assert(message@ =~= undefined_message(nv));
                    }
                }
            }
        }
        k = k + 1;
    }
    assert(te.subrange(0, k as int) =~= te);
    if undefined.len() > 0 {
        return Err(SsrError::new(SsrErrorKind::UndefinedPlaceholder, message, undefined));
    }
    Ok(())
}

/// `s` without the white space at its start.
pub open spec fn trim_start(s: Seq<char>) -> Seq<char>
    decreases s.len(),
{
    if s.len() > 0 && white_space(s[0]) {
        trim_start(s.drop_first())
    } else {
        s
    }
}

/// `s` without the white space at its end.
pub open spec fn trim_end(s: Seq<char>) -> Seq<char>
    decreases s.len(),
{
    if s.len() > 0 && white_space(s.last()) {
        trim_end(s.drop_last())
    } else {
        s
    }
}

/// `s` without the white space at either end.
pub open spec fn trim(s: Seq<char>) -> Seq<char> {
    trim_end(trim_start(s))
}

/// The delimiter `==>>` begins at `i` in `q`.
pub open spec fn delimiter_at(q: Seq<char>, i: int) -> bool {
    &&& 0 <= i
    &&& i + 4 <= q.len()
    &&& q[i] == '='
    &&& q[i + 1] == '='
    &&& q[i + 2] == '>'
    &&& q[i + 3] == '>'
}

/// The positions below `n` where the delimiter begins, in order.
pub open spec fn delimiters_before(q: Seq<char>, n: int) -> Seq<int>
    decreases n,
{
    if n <= 0 {
        seq![]
    } else if delimiter_at(q, n - 1) {
        delimiters_before(q, n - 1).push(n - 1)
    } else {
        delimiters_before(q, n - 1)
    }
}

/// The positions where the delimiter begins in `q`, in order.
pub open spec fn delimiters(q: Seq<char>) -> Seq<int> {
    delimiters_before(q, q.len() as int)
}

/// The pattern text of a rule with one delimiter: what stands before it, trimmed.
pub open spec fn pattern_text(q: Seq<char>) -> Seq<char> {
    trim(q.subrange(0, delimiters(q)[0]))
}

/// The template text of a rule with one delimiter: what stands after it, trimmed.
pub open spec fn template_text(q: Seq<char>) -> Seq<char> {
    trim(q.subrange(delimiters(q)[0] + 4, q.len() as int))
}

/// The error, if any, that compiling rule text `q` gives: first the delimiter, then
/// the pattern, then the template, then the placeholders that the template uses.
pub open spec fn rule_error(q: Seq<char>) -> Option<ErrorView> {
    if delimiters(q).len() != 1 {
        if delimiters(q).len() == 0 {
            Some((SsrErrorKind::Delimiter, seq![], "Cannot find delimiter `==>>`"@))
        } else {
            Some((SsrErrorKind::Delimiter, seq![], "More than one delimiter found"@))
        }
    } else if pattern_error(pattern_text(q)) is Some {
        pattern_error(pattern_text(q))
    } else if template_error(template_text(q)) is Some {
        template_error(template_text(q))
    } else {
        let u = undefined_names(
            pattern_outcome(pattern_text(q))->Ok_0,
            pattern_outcome(template_text(q))->Ok_0,
        );
        if u.len() > 0 {
            Some((SsrErrorKind::UndefinedPlaceholder, u, undefined_message(u)))
        } else {
            None
        }
    }
}

/// The bounds of `q[from..to]` with white space cut from both ends.
fn trim_bounds(q: &str, from: usize, to: usize) -> (r: (usize, usize))
    requires
        from <= to <= q@.len(),
    ensures
        from <= r.0 <= r.1 <= to,
        q@.subrange(r.0 as int, r.1 as int) == trim(q@.subrange(from as int, to as int)),
{
    let mut lo = from;
    while lo < to && is_white_space(q.get_char(lo))
        invariant
            from <= lo <= to <= q@.len(),
            trim_start(q@.subrange(from as int, to as int)) == trim_start(q@.subrange(lo as int, to as int)),
        decreases to - lo,
    {
        assert(q@.subrange(lo as int, to as int).drop_first() =~= q@.subrange(lo + 1, to as int));
        lo = lo + 1;
    }
    let mut hi = to;
    while hi > lo && is_white_space(q.get_char(hi - 1))
        invariant
            from <= lo <= hi <= to <= q@.len(),
            trim_end(q@.subrange(lo as int, to as int)) == trim_end(q@.subrange(lo as int, hi as int)),
        decreases hi - lo,
    {
        assert(q@.subrange(lo as int, hi as int).drop_last() =~= q@.subrange(lo as int, hi - 1));
        hi = hi - 1;
    }
    assert(trim_start(q@.subrange(lo as int, to as int)) == q@.subrange(lo as int, to as int));
    assert(trim_end(q@.subrange(lo as int, hi as int)) == q@.subrange(lo as int, hi as int));
    (lo, hi)
}

impl SsrRule {
    /// Compiles a rule `pattern ==>> template`.
    pub fn from_str(query: &str) -> (r: Result<SsrRule, SsrError>)
        ensures
            r is Ok <==> rule_error(query@) is None,
            r matches Err(e) ==> rule_error(query@) == Some(error_view(e)),
            r matches Ok(rule) ==> {
                &&& pattern_outcome(pattern_text(query@)) == Ok::<Seq<ElementView>, ErrorView>(
                    elements_view(rule.pattern.raw.tokens@),
                )
                &&& pattern_outcome(template_text(query@)) == Ok::<Seq<ElementView>, ErrorView>(
                    elements_view(rule.template.tokens@),
                )
                &&& rule.pattern.expr is Some || rule.pattern.type_ref is Some || rule.pattern.item is Some
                    || rule.pattern.path is Some || rule.pattern.pattern is Some
                &&& undefined_names(
                    elements_view(rule.pattern.raw.tokens@),
                    elements_view(rule.template.tokens@),
                ).len() == 0
            },
    {
        let n = query.unicode_len();
        let mut count: usize = 0;
        let mut first: usize = 0;
        let mut i: usize = 0;
        while i < n
            invariant
                n == query@.len(),
                i <= n,
                count == delimiters_before(query@, i as int).len(),
                count <= i,
                count > 0 ==> first == delimiters_before(query@, i as int)[0],
            decreases n - i,
        {
            if n - i >= 4 && query.get_char(i) == '=' && query.get_char(i + 1) == '='
                && query.get_char(i + 2) == '>' && query.get_char(i + 3) == '>' {
                if count == 0 {
                    first = i;
                }
                assert(delimiter_at(query@, i as int));
                count = count + 1;
            } else {
                assert(!delimiter_at(query@, i as int));
            }
            i = i + 1;
        }
        if count == 0 {
            return Err(SsrError::plain(SsrErrorKind::Delimiter, "Cannot find delimiter `==>>`"));
        }
        if count > 1 {
            return Err(SsrError::plain(SsrErrorKind::Delimiter, "More than one delimiter found"));
        }
        proof {
            lemma_delimiter_bounds(query@, n as int);
        }
        let (plo, phi) = trim_bounds(query, 0, first);
        let (tlo, thi) = trim_bounds(query, first + 4, n);
        let pattern = match SsrPattern::from_str(query.substring_char(plo, phi)) {
            Ok(pattern) => pattern,
            Err(e) => { return Err(e); },
        };
        let template = match SsrTemplate::from_str(query.substring_char(tlo, thi)) {
            Ok(template) => template,
            Err(e) => { return Err(e); },
        };
        let rule = SsrRule { pattern, template };
        match validate_rule(&rule) {
            Ok(()) => Ok(rule),
            Err(e) => Err(e),
        }
    }
}

proof fn lemma_delimiter_bounds(q: Seq<char>, n: int)
    ensures
        forall|j: int| 0 <= j < delimiters_before(q, n).len() ==> delimiter_at(q, #[trigger] delimiters_before(q, n)[j]),
    decreases n,
{
    if n > 0 {
        lemma_delimiter_bounds(q, n - 1);
        let prev = delimiters_before(q, n - 1);
        assert forall|j: int| 0 <= j < delimiters_before(q, n).len() implies delimiter_at(q, #[trigger] delimiters_before(q, n)[j]) by {
            if j < prev.len() {
                assert(delimiters_before(q, n)[j] == prev[j]);
            }
        }
    }
}

/// Every `$` among the tokens is followed by an identifier.
pub open spec fn placeholders_well_formed(ts: Seq<TokenView>) -> bool {
    forall|i: int|
        0 <= i < ts.len() && #[trigger] ts[i].0 == TokenKind::Dollar ==> i + 1 < ts.len() && ts[i
            + 1].0 == TokenKind::Ident
}

/// A placeholder begins at `p` and its name is among `seen`.
pub open spec fn seen_at(ts: Seq<TokenView>, seen: Seq<Seq<char>>, p: int) -> bool {
    0 <= p && p + 1 < ts.len() && ts[p].0 == TokenKind::Dollar && seen.contains(ts[p + 1].1)
}

/// Placeholders begin at `p` and at `q`, after it, with the same name.
pub open spec fn repeated_at(ts: Seq<TokenView>, p: int, q: int) -> bool {
    0 <= p < q && q + 1 < ts.len() && ts[p].0 == TokenKind::Dollar && ts[q].0 == TokenKind::Dollar
        && ts[p + 1].1 == ts[q + 1].1
}

proof fn lemma_scan_repeat(ts: Seq<TokenView>, seen: Seq<Seq<char>>)
    requires
        placeholders_well_formed(ts),
        (exists|p: int| seen_at(ts, seen, p)) || (exists|p: int, q: int| repeated_at(ts, p, q)),
    ensures
        scan(ts, seen) matches Err(e) && e.0 == SsrErrorKind::DuplicatePlaceholder,
    decreases ts.len(),
{
    if ts[0].0 == TokenKind::Dollar {
        assert(ts[1].0 == TokenKind::Ident);
        let name = ts[1].1;
        if !seen.contains(name) {
            let rest = ts.skip(2);
            let seen2 = seen.push(name);
            assert forall|i: int| 0 <= i < rest.len() && #[trigger] rest[i].0 == TokenKind::Dollar implies i + 1 < rest.len() && rest[i + 1].0 == TokenKind::Ident by {
                assert(ts[i + 2].0 == TokenKind::Dollar);
            }
            if exists|p: int| seen_at(ts, seen, p) {
                let p = choose|p: int| seen_at(ts, seen, p);
                assert(p != 0 && p != 1);
                assert(seen2.contains(ts[p + 1].1)) by {
                    let k = choose|k: int| 0 <= k < seen.len() && seen[k] == ts[p + 1].1;
                    assert(seen2[k] == ts[p + 1].1);
                }
                assert(seen_at(rest, seen2, p - 2));
            } else {
                let (p, q) = choose|p: int, q: int| repeated_at(ts, p, q);
                if p == 0 {
                    assert(seen2[seen.len() as int] == name);
                    assert(seen_at(rest, seen2, q - 2));
                } else {
                    assert(p != 1);
                    assert(repeated_at(rest, p - 2, q - 2));
                }
            }
            lemma_scan_repeat(rest, seen2);
        }
    } else {
        let rest = ts.skip(1);
        assert forall|i: int| 0 <= i < rest.len() && #[trigger] rest[i].0 == TokenKind::Dollar implies i + 1 < rest.len() && rest[i + 1].0 == TokenKind::Ident by {
            assert(ts[i + 1].0 == TokenKind::Dollar);
        }
        if exists|p: int| seen_at(ts, seen, p) {
            let p = choose|p: int| seen_at(ts, seen, p);
            assert(seen_at(rest, seen, p - 1));
        } else {
            let (p, q) = choose|p: int, q: int| repeated_at(ts, p, q);
            assert(repeated_at(rest, p - 1, q - 1));
        }
        lemma_scan_repeat(rest, seen);
    }
}

/// A pattern text in which every `$` is followed by a name, and which uses one
/// placeholder name twice, fails with a duplicate-placeholder error.
pub proof fn lemma_duplicate_placeholder(text: Seq<char>, p: int, q: int)
    requires
        lexes_cleanly(text),
        placeholders_well_formed(tokens_of(text)),
        repeated_at(tokens_of(text), p, q),
    ensures
        pattern_outcome(text) matches Err(e) && e.0 == SsrErrorKind::DuplicatePlaceholder,
{
    lemma_scan_repeat(tokens_of(text), seq![]);
}

/// The names of the placeholders that `scan` reads from the tokens, in order.
pub open spec fn dollar_names(ts: Seq<TokenView>) -> Seq<Seq<char>>
    decreases ts.len(),
{
    if ts.len() == 0 {
        seq![]
    } else if ts[0].0 == TokenKind::Dollar && ts.len() > 1 {
        seq![ts[1].1] + dollar_names(ts.skip(2))
    } else {
        dollar_names(ts.skip(1))
    }
}

/// The first item of `s` that is among `seen` or appeared earlier in `s`.
pub open spec fn first_repeat(s: Seq<Seq<char>>, seen: Seq<Seq<char>>) -> Option<Seq<char>>
    decreases s.len(),
{
    if s.len() == 0 {
        None
    } else if seen.contains(s[0]) {
        Some(s[0])
    } else {
        first_repeat(s.drop_first(), seen.push(s[0]))
    }
}

proof fn lemma_scan_first_repeat(ts: Seq<TokenView>, seen: Seq<Seq<char>>)
    requires
        placeholders_well_formed(ts),
    ensures
        match scan(ts, seen) {
            Ok(_) => first_repeat(dollar_names(ts), seen) is None,
            Err(e) => first_repeat(dollar_names(ts), seen) matches Some(x) && e == duplicate_error(x),
        },
    decreases ts.len(),
{
    if ts.len() > 0 {
        if ts[0].0 == TokenKind::Dollar {
            assert(ts[1].0 == TokenKind::Ident);
            let rest = ts.skip(2);
            assert forall|i: int| 0 <= i < rest.len() && #[trigger] rest[i].0 == TokenKind::Dollar implies i + 1 < rest.len() && rest[i + 1].0 == TokenKind::Ident by {
                assert(ts[i + 2].0 == TokenKind::Dollar);
            }
            let names = dollar_names(ts);
            assert(names[0] == ts[1].1);
            assert(names.drop_first() =~= dollar_names(rest));
            if !seen.contains(ts[1].1) {
                lemma_scan_first_repeat(rest, seen.push(ts[1].1));
            }
        } else {
            let rest = ts.skip(1);
            assert forall|i: int| 0 <= i < rest.len() && #[trigger] rest[i].0 == TokenKind::Dollar implies i + 1 < rest.len() && rest[i + 1].0 == TokenKind::Ident by {
                assert(ts[i + 1].0 == TokenKind::Dollar);
            }
            lemma_scan_first_repeat(rest, seen);
        }
    }
}

proof fn lemma_first_repeat_none(s: Seq<Seq<char>>, seen: Seq<Seq<char>>)
    ensures
        first_repeat(s, seen) is None <==> s.no_duplicates() && forall|i: int|
            0 <= i < s.len() ==> !seen.contains(#[trigger] s[i]),
    decreases s.len(),
{
    if s.len() > 0 {
        let rest = s.drop_first();
        let seen2 = seen.push(s[0]);
        lemma_first_repeat_none(rest, seen2);
        if first_repeat(s, seen) is None {
            assert(!seen.contains(s[0]));
            assert forall|i: int, j: int| 0 <= i < s.len() && 0 <= j < s.len() && i != j implies s[i] != s[j] by {
                if i == 0 {
                    assert(!seen2.contains(rest[j - 1]));
                    assert(seen2[seen.len() as int] == s[0]);
                } else if j == 0 {
                    assert(!seen2.contains(rest[i - 1]));
                    assert(seen2[seen.len() as int] == s[0]);
                } else {
                    assert(rest[i - 1] != rest[j - 1]);
                }
            }
            assert forall|i: int| 0 <= i < s.len() implies !seen.contains(#[trigger] s[i]) by {
                if i > 0 {
                    assert(rest[i - 1] == s[i]);
                    if seen.contains(s[i]) {
                        let k = choose|k: int| 0 <= k < seen.len() && seen[k] == s[i];
                        assert(seen2[k] == s[i]);
                    }
                }
            }
        } else if !seen.contains(s[0]) {
            if s.no_duplicates() && forall|i: int| 0 <= i < s.len() ==> !seen.contains(#[trigger] s[i]) {
                assert forall|i: int, j: int| 0 <= i < rest.len() && 0 <= j < rest.len() && i != j implies rest[i] != rest[j] by {
                    assert(s[i + 1] != s[j + 1]);
                }
                assert forall|i: int| 0 <= i < rest.len() implies !seen2.contains(#[trigger] rest[i]) by {
                    assert(!seen.contains(s[i + 1]));
                    assert(s[i + 1] != s[0]);
                    if seen2.contains(rest[i]) {
                        let k = choose|k: int| 0 <= k < seen2.len() && seen2[k] == rest[i];
                        if k < seen.len() {
                            assert(seen[k] == rest[i]);
                        }
                    }
                }
            }
        } else {
            assert(!(forall|i: int| 0 <= i < s.len() ==> !seen.contains(#[trigger] s[i])) ) by {
                assert(seen.contains(s[0]));
            }
        }
    }
}

/// Reading a pattern text in which every `$` is followed by a name succeeds exactly
/// when no two of its placeholders share a name; otherwise the error is a duplicate-placeholder
/// error naming the first name that is seen a second time.
pub proof fn lemma_placeholder_names_unique(text: Seq<char>)
    requires
        lexes_cleanly(text),
        placeholders_well_formed(tokens_of(text)),
    ensures
        pattern_outcome(text) is Ok <==> first_repeat(dollar_names(tokens_of(text)), seq![]) is None,
        pattern_outcome(text) is Ok <==> dollar_names(tokens_of(text)).no_duplicates(),
        pattern_outcome(text) matches Err(e) ==> first_repeat(dollar_names(tokens_of(text)), seq![])
            matches Some(x) && e == duplicate_error(x),
{
    lemma_scan_first_repeat(tokens_of(text), seq![]);
    lemma_first_repeat_none(dollar_names(tokens_of(text)), seq![]);
}

/// The undefined names of a rule are exactly the names that the template uses and
/// the pattern does not define, each listed once.
pub proof fn lemma_undefined_names(pattern: Seq<ElementView>, template: Seq<ElementView>)
    ensures
        forall|n: Seq<char>|
            #[trigger] undefined_names(pattern, template).contains(n) <==> placeholder_names(
                template,
            ).contains(n) && !placeholder_names(pattern).contains(n),
        undefined_names(pattern, template).no_duplicates(),
    decreases template.len(),
{
    if template.len() > 0 {
        let t0 = template.drop_last();
        lemma_undefined_names(pattern, t0);
        let u0 = undefined_names(pattern, t0);
        let u = undefined_names(pattern, template);
        match template.last() {
            ElementView::Placeholder(m) => {
                assert(placeholder_names(template) =~= placeholder_names(t0).push(m));
                assert forall|n: Seq<char>| #[trigger] u.contains(n) <==> placeholder_names(template).contains(n)
                    && !placeholder_names(pattern).contains(n) by {
                    if placeholder_names(template).contains(n) && n != m {
                        let k = choose|k: int| 0 <= k < placeholder_names(template).len() && placeholder_names(template)[k] == n;
                        assert(placeholder_names(t0)[k] == n);
                    }
                    if u.contains(n) && u != u0 {
                        let k = choose|k: int| 0 <= k < u.len() && u[k] == n;
                        if k < u0.len() {
                            assert(u0[k] == n);
                        }
                    }
                    if u0.contains(n) && u != u0 {
                        let k = choose|k: int| 0 <= k < u0.len() && u0[k] == n;
                        assert(u[k] == n);
                    }
                    if placeholder_names(t0).contains(n) {
                        let k = choose|k: int| 0 <= k < placeholder_names(t0).len() && placeholder_names(t0)[k] == n;
                        assert(placeholder_names(template)[k] == n);
                    }
                    if n == m {
                        assert(placeholder_names(template)[placeholder_names(t0).len() as int] == m);
                        if u != u0 {
                            assert(u[u0.len() as int] == m);
                        }
                    }
                }
            },
            ElementView::Token(_, _) => {
                assert(placeholder_names(template) =~= placeholder_names(t0));
            },
        }
    }
}

proof fn lemma_scan_error_kinds(ts: Seq<TokenView>, seen: Seq<Seq<char>>)
    ensures
        scan(ts, seen) matches Err(e) ==> e.0 == SsrErrorKind::PlaceholderSyntax || e.0
            == SsrErrorKind::DuplicatePlaceholder,
    decreases ts.len(),
{
    if ts.len() > 0 {
        if ts[0].0 == TokenKind::Dollar {
            if ts.len() > 1 && ts[1].0 == TokenKind::Ident && !seen.contains(ts[1].1) {
                lemma_scan_error_kinds(ts.skip(2), seen.push(ts[1].1));
            }
        } else {
            lemma_scan_error_kinds(ts.skip(1), seen);
        }
    }
}

/// Rule text fails with a delimiter error exactly when `==>>` does not occur in it
/// once.
pub proof fn lemma_delimiter_error(q: Seq<char>)
    ensures
        (rule_error(q) matches Some(e) && e.0 == SsrErrorKind::Delimiter) <==> delimiters(q).len()
            != 1,
{
    if delimiters(q).len() == 1 {
        lemma_scan_error_kinds(tokens_of(pattern_text(q)), seq![]);
        lemma_scan_error_kinds(tokens_of(template_text(q)), seq![]);
    }
}

} // verus!
