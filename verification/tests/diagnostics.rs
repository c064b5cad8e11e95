//! Spans, diagnostic bags and the plain-text rendering of diagnostics.

use lm_lang::diagnostics::{Diagnostic, DiagnosticBag, Label, QuickFix, Severity, Span};
use lm_lang::render::offset_to_line_col;

#[test]
fn test_span_merge() {
    let a = Span::new(0, 5, 10);
    let b = Span::new(0, 8, 15);
    let merged = a.merge(b);
    assert_eq!(merged.start, 5);
    assert_eq!(merged.end, 15);
}

#[test]
fn test_diagnostic_bag() {
    let mut bag = DiagnosticBag::new();
    assert!(bag.is_empty());
    assert!(!bag.has_errors());

    bag.add(Diagnostic::warning("W0001", "unused variable", Span::new(0, 0, 1)));
    assert_eq!(bag.len(), 1);
    assert!(!bag.has_errors());

    bag.add(Diagnostic::error("E0001", "bad token", Span::new(0, 2, 3)));
    assert_eq!(bag.len(), 2);
    assert!(bag.has_errors());
}

#[test]
fn test_render_plain_error() {
    let source = "let @x = 1;\nlet y = 2;\n";
    let diag = Diagnostic::error("E0001", "unrecognized character `@`", Span::new(0, 4, 5))
        .with_label(Label::new(Span::new(0, 4, 5), "unexpected character"))
        .with_help("remove this character")
        .with_quickfix(QuickFix::new(Span::new(0, 4, 5), "", "remove the character"));

    let rendered = diag.render_plain(source, "test.lm");
    assert!(rendered.contains("error[E0001]"));
    assert!(rendered.contains("unrecognized character `@`"));
    assert!(rendered.contains("test.lm:1:5"));
    assert!(rendered.contains("let @x = 1;"));
    assert!(rendered.contains("^ unexpected character"));
    assert!(rendered.contains("help: remove this character"));
    assert!(rendered.contains("quickfix: remove the character"));
}

#[test]
fn test_render_plain_warning() {
    let source = "let x = 1;\nlet y = 2;\n";
    let diag = Diagnostic::warning("W0001", "unused variable `x`", Span::new(0, 4, 5))
        .with_label(Label::new(Span::new(0, 4, 5), "defined here"))
        .with_note("prefix with `_` to suppress this warning");

    let rendered = diag.render_plain(source, "test.lm");
    assert!(rendered.contains("warning[W0001]"));
    assert!(rendered.contains("unused variable `x`"));
    assert!(rendered.contains("^ defined here"));
    assert!(rendered.contains("note: prefix with `_` to suppress this warning"));
}

#[test]
fn test_offset_to_line_col() {
    let src = "abc\ndef\nghi";
    assert_eq!(offset_to_line_col(src, 0), (1, 1));
    assert_eq!(offset_to_line_col(src, 3), (1, 4));
    assert_eq!(offset_to_line_col(src, 4), (2, 1));
    assert_eq!(offset_to_line_col(src, 7), (2, 4));
    assert_eq!(offset_to_line_col(src, 8), (3, 1));
}

#[test]
fn render_plain_exact_layout() {
    let source = "let @x = 1;\n";
    let diag = Diagnostic::error("E0001", "unrecognized character `@`", Span::new(0, 4, 5))
        .with_label(Label::new(Span::new(0, 4, 5), "not a valid LM token"))
        .with_help("LM uses ASCII operators and identifiers");
    let expected = "error[E0001]: unrecognized character `@`\n--> test.lm:1:5\n  |\n1 | let @x = 1;\n  |     ^ not a valid LM token\n  |\n  = help: LM uses ASCII operators and identifiers\n";
    assert_eq!(diag.render_plain(source, "test.lm"), expected);
}

#[test]
fn render_secondary_label_on_other_line() {
    let source = "fn f() -> Int {\n  \"no\"\n}\n";
    let diag = Diagnostic::error("E0200", "type mismatch", Span::new(0, 18, 22))
        .with_label(Label::new(Span::new(0, 10, 13), "declared here"));
    let rendered = diag.render_plain(source, "a.lm");
    assert!(rendered.contains("\n--> a.lm:2:3\n"));
    assert!(rendered.contains("2 |   \"no\"\n"));
    assert!(rendered.contains("  |   ^^^^\n"));
    assert!(rendered.contains("1 | fn f() -> Int {\n"));
    assert!(rendered.contains(&format!("  |{}--- declared here\n", " ".repeat(11))));
}

#[test]
fn render_colored_wraps_in_ansi() {
    let diag = Diagnostic::info("I0001", "note", Span::new(0, 0, 1));
    let rendered = diag.render("x", "f.lm");
    assert!(rendered.starts_with("\x1b[1;36minfo[I0001]\x1b[0m: \x1b[1mnote\x1b[0m\n"));
    assert!(rendered.contains("\x1b[1;36m-\x1b[0m\n"));
}

#[test]
fn render_all_joins_with_newlines() {
    let mut bag = DiagnosticBag::new();
    bag.add(Diagnostic::error("E0001", "a", Span::new(0, 0, 1)));
    bag.add(Diagnostic::warning("W0001", "b", Span::new(0, 1, 2)));
    let all = bag.render_all("xy", "f.lm");
    let first = bag.iter()[0].render("xy", "f.lm");
    let second = bag.iter()[1].render("xy", "f.lm");
    assert_eq!(all, format!("{}\n{}", first, second));
}

#[test]
fn offset_past_end_counts_as_end() {
    assert_eq!(offset_to_line_col("ab\nc", 100), (2, 2));
    assert_eq!(offset_to_line_col("", 5), (1, 1));
}

#[test]
fn bag_merge_keeps_order() {
    let mut a = DiagnosticBag::new();
    a.add(Diagnostic::warning("W1", "first", Span::point(0, 0)));
    let mut b = DiagnosticBag::new();
    b.add(Diagnostic::error("E1", "second", Span::point(0, 1)));
    a.merge(b);
    assert_eq!(a.len(), 2);
    assert_eq!(a.iter()[0].message, "first");
    assert_eq!(a.iter()[1].message, "second");
    assert!(a.has_errors());
    let v = a.into_vec();
    assert_eq!(v[1].severity, Severity::Error);
}

/// `s` with every escape sequence, from ESC to the next `m`, removed.
fn strip_escape_codes(s: &str) -> String {
    let mut out = String::new();
    let mut in_code = false;
    for c in s.chars() {
        if in_code {
            if c == 'm' {
                in_code = false;
            }
        } else if c == '\x1b' {
            in_code = true;
        } else {
            out.push(c);
        }
    }
    out
}

#[test]
fn colored_rendering_without_codes_is_the_plain_one() {
    let source = "fn f() -> Int {\n  \"no\"\n}\n";
    for sev in [Severity::Error, Severity::Warning, Severity::Info] {
        let diag = Diagnostic::with_severity("E0200", sev, "type mismatch".to_string(), Span::new(0, 18, 22))
            .with_label(Label::new(Span::new(0, 18, 22), "found `String`"))
            .with_label(Label::new(Span::new(0, 10, 13), "declared here"))
            .with_note("the body's value is its last expression")
            .with_help("return an `Int`")
            .with_quickfix(QuickFix::new(Span::new(0, 18, 22), "0", "use a number"));
        let colored = diag.render(source, "a.lm");
        assert!(colored.contains('\x1b'));
        assert_eq!(strip_escape_codes(&colored), diag.render_plain(source, "a.lm"));
    }
}
