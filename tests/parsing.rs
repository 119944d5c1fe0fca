use ra_ssr::error::SsrErrorKind;
use ra_ssr::parsing::{
    is_white_space, parse_pattern, tokenize, FragmentKind, PatternElement, Placeholder,
    RawSearchPattern, SsrPattern, SsrRule, SsrTemplate, Token,
};
use ra_ssr::syntax::TokenKind;
use ra_syntax::SyntaxKind;

fn token(kind: TokenKind, text: &str) -> PatternElement {
    PatternElement::Token(Token { kind, text: text.to_string() })
}

fn other(kind: SyntaxKind) -> TokenKind {
    TokenKind::Other(kind as u16)
}

fn placeholder(name: &str) -> PatternElement {
    PatternElement::Placeholder(Placeholder::new(name.to_string()))
}

fn error_kind(rule: &str) -> SsrErrorKind {
    match SsrRule::from_str(rule) {
        Ok(_) => panic!("rule {:?} was accepted", rule),
        Err(e) => e.kind,
    }
}

#[test]
fn parser_happy_case() {
    let result = SsrRule::from_str("foo($a, $b) ==>> bar($b, $a)").unwrap();
    assert_eq!(
        result.pattern.raw.tokens,
        vec![
            token(TokenKind::Ident, "foo"),
            token(TokenKind::Open(SyntaxKind::L_PAREN as u16), "("),
            placeholder("a"),
            token(other(SyntaxKind::COMMA), ","),
            token(TokenKind::Whitespace, " "),
            placeholder("b"),
            token(TokenKind::Close(SyntaxKind::R_PAREN as u16), ")"),
        ]
    );
    assert_eq!(
        result.template.tokens,
        vec![
            token(TokenKind::Ident, "bar"),
            token(TokenKind::Open(SyntaxKind::L_PAREN as u16), "("),
            placeholder("b"),
            token(other(SyntaxKind::COMMA), ","),
            token(TokenKind::Whitespace, " "),
            placeholder("a"),
            token(TokenKind::Close(SyntaxKind::R_PAREN as u16), ")"),
        ]
    );
}

#[test]
fn placeholder_stand_in_name() {
    let p = Placeholder::new("abc".to_string());
    assert_eq!(p.ident, "abc");
    assert_eq!(p.stand_in_name, "__placeholder_abc");
}

#[test]
fn tokens_are_exact_slices() {
    let tokens = tokenize("a  +\u{e9}t").unwrap();
    let texts: Vec<&str> = tokens.iter().map(|t| t.text.as_str()).collect();
    assert_eq!(texts, vec!["a", "  ", "+", "\u{e9}t"]);
    assert_eq!(tokens[0].kind, TokenKind::Ident);
    assert_eq!(tokens[1].kind, TokenKind::Whitespace);
    assert_eq!(tokens[2].kind, other(SyntaxKind::PLUS));
}

#[test]
fn tokenize_rejects_unknown_character() {
    let e = tokenize("foo(\u{a4})").unwrap_err();
    assert_eq!(e.kind, SsrErrorKind::Tokenize);
    assert_eq!(error_kind("foo(\u{a4}) ==>> bar"), SsrErrorKind::Tokenize);
}

#[test]
fn tokenize_empty_text() {
    assert!(tokenize("").unwrap().is_empty());
}

#[test]
fn duplicate_placeholder_in_pattern() {
    let e = SsrRule::from_str("foo($a, $a) ==>> bar($a)").unwrap_err();
    assert_eq!(e.kind, SsrErrorKind::DuplicatePlaceholder);
    assert_eq!(e.names, vec!["a".to_string()]);
    assert_eq!(e.message, "Name `a` repeats more than once");
}

#[test]
fn duplicate_placeholder_in_template() {
    assert_eq!(error_kind("foo($a) ==>> bar($a, $a)"), SsrErrorKind::DuplicatePlaceholder);
}

#[test]
fn duplicate_placeholder_far_apart() {
    let e = parse_pattern("$x + $y * $z - $x").unwrap_err();
    assert_eq!(e.kind, SsrErrorKind::DuplicatePlaceholder);
    assert_eq!(e.names, vec!["x".to_string()]);
}

#[test]
fn undefined_placeholders_listed_in_order() {
    let e = SsrRule::from_str("foo($a) ==>> bar($c, $a, $b)").unwrap_err();
    assert_eq!(e.kind, SsrErrorKind::UndefinedPlaceholder);
    assert_eq!(e.names, vec!["c".to_string(), "b".to_string()]);
    assert_eq!(e.message, "Replacement contains undefined placeholders: $c, $b");
}

#[test]
fn missing_delimiter() {
    let e = SsrRule::from_str("foo($a) bar($a)").unwrap_err();
    assert_eq!(e.kind, SsrErrorKind::Delimiter);
    assert_eq!(e.message, "Cannot find delimiter `==>>`");
}

#[test]
fn two_delimiters() {
    let e = SsrRule::from_str("foo ==>> bar ==>> baz").unwrap_err();
    assert_eq!(e.kind, SsrErrorKind::Delimiter);
    assert_eq!(e.message, "More than one delimiter found");
    assert_eq!(error_kind("a==>>==>>b"), SsrErrorKind::Delimiter);
}

#[test]
fn delimiter_without_spaces() {
    let rule = SsrRule::from_str("foo($a)==>>bar($a)").unwrap();
    assert_eq!(rule.template.tokens.len(), 4);
}

#[test]
fn placeholder_needs_a_name() {
    assert_eq!(error_kind("foo($) ==>> bar"), SsrErrorKind::PlaceholderSyntax);
    assert_eq!(error_kind("foo $ ==>> bar"), SsrErrorKind::PlaceholderSyntax);
    let e = parse_pattern("foo $").unwrap_err();
    assert_eq!(e.message, "Placeholder ($) with no name");
    let e = parse_pattern("$1").unwrap_err();
    assert_eq!(e.message, "Placeholders should be $name");
}

#[test]
fn invalid_pattern() {
    let e = SsrRule::from_str("+ ==>> foo").unwrap_err();
    assert_eq!(e.kind, SsrErrorKind::InvalidPattern);
    assert_eq!(error_kind(" ==>> foo"), SsrErrorKind::InvalidPattern);
}

#[test]
fn invalid_template() {
    let e = SsrRule::from_str("foo ==>> )(").unwrap_err();
    assert_eq!(e.kind, SsrErrorKind::InvalidTemplate);
    assert!(SsrTemplate::from_str("}").is_err());
}

#[test]
fn template_keeps_whitespace() {
    let t = SsrTemplate::from_str("f($a , $b)").unwrap();
    assert_eq!(
        t.tokens[2..7].to_vec(),
        vec![
            placeholder("a"),
            token(TokenKind::Whitespace, " "),
            token(other(SyntaxKind::COMMA), ","),
            token(TokenKind::Whitespace, " "),
            placeholder("b"),
        ]
    );
}

#[test]
fn rust_code_uses_stand_ins() {
    let p = SsrPattern::from_str("foo($a, $b)").unwrap();
    assert_eq!(p.raw.as_rust_code(), "foo(__placeholder_a, __placeholder_b)");
    assert_eq!(p.placeholders_by_stand_in.len(), 2);
    assert_eq!(p.placeholders_by_stand_in[0].0, "__placeholder_a");
    assert_eq!(p.placeholders_by_stand_in[0].1.ident, "a");
    assert_eq!(p.placeholders_by_stand_in[1].0, "__placeholder_b");
    assert_eq!(p.placeholders_by_stand_in[1].1.ident, "b");
}

#[test]
fn call_parses_as_expression() {
    let p = SsrPattern::from_str("foo($a)").unwrap();
    assert!(p.expr.is_some());
    assert!(p.item.is_none());
}

#[test]
fn bare_path_keeps_every_reading() {
    let p = SsrPattern::from_str("foo::bar").unwrap();
    assert!(p.expr.is_some());
    assert!(p.type_ref.is_some());
    assert!(p.path.is_some());
    assert!(p.pattern.is_some());
    assert!(p.item.is_none());
}

#[test]
fn item_pattern() {
    let p = SsrPattern::from_str("fn $f() {}").unwrap();
    assert!(p.item.is_some());
    assert!(p.expr.is_none());
}

#[test]
fn fragment_parsing() {
    assert!(ra_ssr::parsing::parse_fragment(FragmentKind::TypeRef, "Vec<u8>").is_some());
    assert!(ra_ssr::parsing::parse_fragment(FragmentKind::TypeRef, "1 +").is_none());
    assert!(ra_ssr::parsing::parse_fragment(FragmentKind::Expr, "").is_none());
}

#[test]
fn char_literal_with_suffix_is_rejected() {
    assert_eq!(error_kind("'1'x ==>> 1"), SsrErrorKind::InvalidPattern);
    assert_eq!(error_kind("foo ==>> '1'x"), SsrErrorKind::InvalidTemplate);
}

#[test]
fn plain_char_literals_are_accepted() {
    let rule = SsrRule::from_str("'a' ==>> 'b'").unwrap();
    assert!(rule.pattern.expr.is_some());
    assert_eq!(rule.template.tokens, vec![token(TokenKind::Char, "'b'")]);
}

#[test]
fn one_stand_in_entry_per_name() {
    let raw = RawSearchPattern {
        tokens: vec![placeholder("a"), token(TokenKind::Whitespace, " "), placeholder("b"), placeholder("a")],
    };
    let entries = raw.placeholders_by_stand_in();
    assert_eq!(entries.len(), 2);
    assert_eq!(entries[0].0, "__placeholder_a");
    assert_eq!(entries[0].1, Placeholder::new("a".to_string()));
    assert_eq!(entries[1].0, "__placeholder_b");
}

#[test]
fn unicode_white_space() {
    assert!(is_white_space(' '));
    assert!(is_white_space('\t'));
    assert!(is_white_space('\u{3000}'));
    assert!(!is_white_space('a'));
    assert!(!is_white_space('\u{200b}'));
    for c in ['\u{85}', '\u{a0}', '\u{1680}', '\u{2000}', '\u{200a}', '\u{2028}', '\u{202f}', '\u{205f}'] {
        assert_eq!(is_white_space(c), c.is_whitespace());
    }
}

#[test]
fn rule_text_is_trimmed() {
    let rule = SsrRule::from_str(" \u{3000}foo ==>> bar\n ").unwrap();
    assert_eq!(rule.pattern.raw.tokens, vec![token(TokenKind::Ident, "foo")]);
    assert_eq!(rule.template.tokens, vec![token(TokenKind::Ident, "bar")]);
}

#[test]
fn escaped_char_literal_is_accepted() {
    let rule = SsrRule::from_str("'\\n' ==>> '\\''").unwrap();
    assert!(rule.pattern.expr.is_some());
}

#[test]
fn overlong_pattern_is_refused_without_panic() {
    let mut pattern = String::from("a");
    for _ in 0..300 {
        pattern.push_str("+a");
    }
    let rule = format!("{} ==>> b", pattern);
    let e = SsrRule::from_str(&rule).unwrap_err();
    assert_eq!(e.kind, SsrErrorKind::InvalidPattern);
    assert_eq!(e.message, "Pattern is not a valid Rust expression, type, item, path or pattern");
    assert!(SsrRule::from_str("a+a+a+a ==>> b").is_ok());
}

#[test]
fn error_messages() {
    assert_eq!(
        SsrRule::from_str("foo ==>> )(").unwrap_err().message,
        "Replacement is not a valid Rust expression, type, item, path or pattern"
    );
    assert_eq!(
        SsrRule::from_str("foo(\u{a4}) ==>> bar").unwrap_err().message,
        "Failed to parse pattern: unexpected character"
    );
    assert_eq!(SsrRule::from_str("foo($) ==>> bar").unwrap_err().message, "Placeholders should be $name");
    assert_eq!(SsrRule::from_str("foo $ ==>> bar").unwrap_err().message, "Placeholder ($) with no name");
    let e = SsrRule::from_str("foo ==>> bar($x)").unwrap_err();
    assert_eq!(e.message, "Replacement contains undefined placeholders: $x");
}

#[test]
fn fragments_stay_in_their_context() {
    assert!(ra_ssr::parsing::parse_fragment(FragmentKind::Expr, "a; b").is_none());
    assert!(ra_ssr::parsing::parse_fragment(FragmentKind::Expr, "{ a; b }").is_some());
    assert!(ra_ssr::parsing::parse_fragment(FragmentKind::Pattern, "a = b").is_none());
    assert!(ra_ssr::parsing::parse_fragment(FragmentKind::Expr, "a = b").is_some());
    assert_eq!(error_kind("1; } fn g() { 2 ==>> x"), SsrErrorKind::InvalidPattern);
    assert_eq!(error_kind("f(a)) ==>> x"), SsrErrorKind::InvalidPattern);
}
