use ra_ssr::parsing::{parse_pattern, SsrTemplate};
use ra_ssr::replacing::{
    apply_edit, matches_to_edit, render_replace, try_matches_to_edit, Indel, Match,
    PlaceholderValue, SsrMatches, TextEdit, TextRange,
};

fn template(text: &str) -> SsrTemplate {
    SsrTemplate { tokens: parse_pattern(text).unwrap() }
}

fn range(start: usize, end: usize) -> TextRange {
    TextRange { start, end }
}

fn value(start: usize, end: usize) -> PlaceholderValue {
    PlaceholderValue {
        range: range(start, end),
        node_text: None,
        inner_matches: SsrMatches { matches: Vec::new() },
    }
}

fn text(bytes: Vec<u8>) -> String {
    String::from_utf8(bytes).unwrap()
}

/// A match of `$x + $y` on "1 + 2" at offset 10, rendered with `template_text`.
fn sum_match(template_text: &str) -> Match {
    Match {
        range: range(10, 15),
        matched_text: "1 + 2".to_string(),
        template: template(template_text),
        placeholder_values: vec![("x".to_string(), value(10, 11)), ("y".to_string(), value(14, 15))],
        ignored_comments: Vec::new(),
    }
}

#[test]
fn template_without_placeholders_is_literal() {
    let m = sum_match("foo()");
    assert_eq!(text(render_replace(&m)), "foo()");
    let mut other = sum_match("foo()");
    other.placeholder_values = Vec::new();
    assert_eq!(text(render_replace(&other)), "foo()");
}

#[test]
fn placeholders_take_captured_text() {
    let m = sum_match("add($y, $x)");
    assert_eq!(text(render_replace(&m)), "add(2, 1)");
}

#[test]
fn template_whitespace_is_kept() {
    assert_eq!(text(render_replace(&sum_match("$x,$y"))), "1,2");
    assert_eq!(text(render_replace(&sum_match("$x, $y"))), "1, 2");
}

#[test]
fn node_text_wins_over_range() {
    let mut m = sum_match("$x");
    m.placeholder_values[0].1.node_text = Some("node".to_string());
    assert_eq!(text(render_replace(&m)), "node");
}

#[test]
fn ignored_comments_follow_replacement() {
    let mut m = sum_match("$y");
    m.ignored_comments = vec!["/* a */".to_string(), "// b".to_string()];
    assert_eq!(text(render_replace(&m)), "2/* a */// b");
}

#[test]
fn first_binding_of_a_name_counts() {
    let mut m = sum_match("$x");
    m.placeholder_values.push(("x".to_string(), value(14, 15)));
    m.placeholder_values.swap(0, 2);
    assert_eq!(text(render_replace(&m)), "2");
}

#[test]
fn edits_are_in_source_coordinates() {
    let matches = SsrMatches { matches: vec![sum_match("$y - $x")] };
    let edit = matches_to_edit(&matches);
    assert_eq!(edit.indels.len(), 1);
    assert_eq!(edit.indels[0].range, range(10, 15));
    assert_eq!(text(edit.indels[0].insert.clone()), "2 - 1");
}

/// f(g(1)) with f($x) ==>> h($x) and, inside $x, g($y) ==>> k($y).
fn nested_matches() -> SsrMatches {
    let inner = Match {
        range: range(2, 6),
        matched_text: "g(1)".to_string(),
        template: template("k($y)"),
        placeholder_values: vec![("y".to_string(), value(4, 5))],
        ignored_comments: Vec::new(),
    };
    let outer = Match {
        range: range(0, 7),
        matched_text: "f(g(1))".to_string(),
        template: template("h($x)"),
        placeholder_values: vec![(
            "x".to_string(),
            PlaceholderValue {
                range: range(2, 6),
                node_text: None,
                inner_matches: SsrMatches { matches: vec![inner] },
            },
        )],
        ignored_comments: Vec::new(),
    };
    SsrMatches { matches: vec![outer] }
}

#[test]
fn checked_edit_respects_depth_limit() {
    assert!(try_matches_to_edit(&nested_matches(), 1).is_none());
    let edit = try_matches_to_edit(&nested_matches(), 2).unwrap();
    assert_eq!(edit.indels.len(), 1);
    assert_eq!(text(edit.indels[0].insert.clone()), "h(k(1))");
}

#[test]
fn checked_edit_rejects_overlap() {
    let mut second = sum_match("$x");
    second.range = range(12, 17);
    second.matched_text = "+ 2 x".to_string();
    second.placeholder_values = vec![("x".to_string(), value(12, 13))];
    let matches = SsrMatches { matches: vec![sum_match("$y"), second] };
    assert!(try_matches_to_edit(&matches, 4).is_none());
}

#[test]
fn checked_edit_rejects_unbound_placeholder() {
    let matches = SsrMatches { matches: vec![sum_match("$z")] };
    assert!(try_matches_to_edit(&matches, 4).is_none());
    let matches = SsrMatches { matches: vec![sum_match("$y")] };
    assert!(try_matches_to_edit(&matches, 4).is_some());
}

#[test]
fn checked_edit_rejects_range_outside_frame() {
    let mut m = sum_match("$x");
    m.placeholder_values[0].1.range = range(8, 11);
    assert!(try_matches_to_edit(&SsrMatches { matches: vec![m] }, 4).is_none());
}

#[test]
fn nested_match_is_applied_once() {
    let inner = Match {
        range: range(2, 6),
        matched_text: "g(1)".to_string(),
        template: template("k($y)"),
        placeholder_values: vec![("y".to_string(), value(4, 5))],
        ignored_comments: Vec::new(),
    };
    let outer = Match {
        range: range(0, 7),
        matched_text: "f(g(1))".to_string(),
        template: template("h($x)"),
        placeholder_values: vec![(
            "x".to_string(),
            PlaceholderValue {
                range: range(2, 6),
                node_text: None,
                inner_matches: SsrMatches { matches: vec![inner] },
            },
        )],
        ignored_comments: Vec::new(),
    };
    assert_eq!(text(render_replace(&outer)), "h(k(1))");
    let edit = matches_to_edit(&SsrMatches { matches: vec![outer] });
    assert_eq!(edit.indels.len(), 1);
    assert_eq!(edit.indels[0].range, range(0, 7));
    assert_eq!(text(edit.indels[0].insert.clone()), "h(k(1))");
}

#[test]
fn nested_match_inside_longer_capture() {
    // The inner match sits in the middle of the captured text "a + g(2) + b".
    let inner = Match {
        range: range(24, 28),
        matched_text: "g(2)".to_string(),
        template: template("k"),
        placeholder_values: Vec::new(),
        ignored_comments: Vec::new(),
    };
    let outer = Match {
        range: range(18, 33),
        matched_text: "w(a + g(2) + b)".to_string(),
        template: template("($e)"),
        placeholder_values: vec![(
            "e".to_string(),
            PlaceholderValue {
                range: range(20, 32),
                node_text: None,
                inner_matches: SsrMatches { matches: vec![inner] },
            },
        )],
        ignored_comments: Vec::new(),
    };
    assert_eq!(text(render_replace(&outer)), "(a + k + b)");
}

#[test]
fn sibling_matches_make_ordered_edits() {
    let mut second = sum_match("$x");
    second.range = range(20, 25);
    second.placeholder_values = vec![("x".to_string(), value(20, 21))];
    let matches = SsrMatches { matches: vec![sum_match("$y"), second] };
    let edit = matches_to_edit(&matches);
    assert_eq!(edit.indels.len(), 2);
    assert_eq!(edit.indels[0].range, range(10, 15));
    assert_eq!(text(edit.indels[0].insert.clone()), "2");
    assert_eq!(edit.indels[1].range, range(20, 25));
    assert_eq!(text(edit.indels[1].insert.clone()), "1");
}

#[test]
fn no_matches_no_edits() {
    let edit = matches_to_edit(&SsrMatches { matches: Vec::new() });
    assert!(edit.indels.is_empty());
}

#[test]
fn apply_edit_splices() {
    let edit = TextEdit {
        indels: vec![
            Indel { range: range(0, 1), insert: b"xy".to_vec() },
            Indel { range: range(3, 3), insert: b"-".to_vec() },
            Indel { range: range(4, 6), insert: Vec::new() },
        ],
    };
    assert_eq!(text(apply_edit(&b"abcdefg".to_vec(), &edit)), "xybc-dg");
}

#[test]
fn literal_template_needs_no_bindings() {
    let mut m = sum_match("foo()");
    m.placeholder_values = Vec::new();
    m.matched_text = String::new();
    let edit = try_matches_to_edit(&SsrMatches { matches: vec![m] }, 0).unwrap();
    assert_eq!(edit.indels[0].range, range(10, 15));
    assert_eq!(text(edit.indels[0].insert.clone()), "foo()");
}
