//! Editor support: line indexes, published diagnostics and source analysis.

use lm_lang::analysis::{
    analyze, build_fn_detail, find_definition, find_hover, position_in_range, type_annotation_to_string,
    DefEntry, HoverEntry, SymbolKind,
};
use lm_lang::ast::{Effect, Param, TypeAnnotation, TypeKind};
use lm_lang::convert::{convert_diagnostic, convert_severity, DiagnosticSeverity};
use lm_lang::diagnostics::{Diagnostic, Severity, Span};
use lm_lang::line_index::{LineIndex, Position, Range};

// ---------------------------------------------------------------
// Line index
// ---------------------------------------------------------------

#[test]
fn test_line_index_single_line() {
    let idx = LineIndex::new("hello");
    assert_eq!(idx.offset_to_position(0), Position::new(0, 0));
    assert_eq!(idx.offset_to_position(3), Position::new(0, 3));
    assert_eq!(idx.offset_to_position(5), Position::new(0, 5));
}

#[test]
fn test_line_index_utf16_columns() {
    let idx = LineIndex::new("a😀b");
    assert_eq!(idx.offset_to_position(1), Position::new(0, 1));
    assert_eq!(idx.offset_to_position(5), Position::new(0, 3));
    assert_eq!(idx.offset_to_position(6), Position::new(0, 4));
}

#[test]
fn test_line_index_multiple_lines() {
    let idx = LineIndex::new("abc\ndef\nghi");
    assert_eq!(idx.offset_to_position(0), Position::new(0, 0));
    assert_eq!(idx.offset_to_position(2), Position::new(0, 2));
    assert_eq!(idx.offset_to_position(4), Position::new(1, 0));
    assert_eq!(idx.offset_to_position(6), Position::new(1, 2));
    assert_eq!(idx.offset_to_position(8), Position::new(2, 0));
    assert_eq!(idx.offset_to_position(10), Position::new(2, 2));
}

#[test]
fn test_line_index_offset_at_newline() {
    let idx = LineIndex::new("ab\ncd\n");
    assert_eq!(idx.offset_to_position(2), Position::new(0, 2));
    assert_eq!(idx.offset_to_position(3), Position::new(1, 0));
    assert_eq!(idx.offset_to_position(5), Position::new(1, 2));
    assert_eq!(idx.offset_to_position(6), Position::new(2, 0));
}

#[test]
fn test_line_index_empty() {
    let idx = LineIndex::new("");
    assert_eq!(idx.offset_to_position(0), Position::new(0, 0));
}

#[test]
fn test_line_index_clamp() {
    let idx = LineIndex::new("hello");
    assert_eq!(idx.offset_to_position(100), Position::new(0, 5));
}

#[test]
fn line_index_inside_a_character_moves_to_its_start() {
    let idx = LineIndex::new("a😀b");
    assert_eq!(idx.offset_to_position(2), Position::new(0, 1));
    assert_eq!(idx.offset_to_position(4), Position::new(0, 1));
}

#[test]
fn line_index_counts_two_byte_characters_once() {
    let idx = LineIndex::new("é\nxé");
    assert_eq!(idx.offset_to_position(2), Position::new(0, 1));
    assert_eq!(idx.offset_to_position(3), Position::new(1, 0));
    assert_eq!(idx.offset_to_position(6), Position::new(1, 2));
}

#[test]
fn test_span_to_range() {
    let source = "fn foo() {\n  42\n}";
    let idx = LineIndex::new(source);
    let span = Span::new(0, 12, 14);
    let range = idx.span_to_range(span);
    assert_eq!(range.start, Position::new(1, 1));
    assert_eq!(range.end, Position::new(1, 3));
}

// ---------------------------------------------------------------
// Published diagnostics
// ---------------------------------------------------------------

#[test]
fn test_convert_diagnostic() {
    let span = Span::new(0, 4, 8);
    let diag = Diagnostic::error("E0201", "undefined variable `x`", span);
    let source = "let x = 42;\nlet y = x;";
    let idx = LineIndex::new(source);
    let lsp_diag = convert_diagnostic(&diag, &idx);

    assert_eq!(lsp_diag.range.start, Position::new(0, 4));
    assert_eq!(lsp_diag.range.end, Position::new(0, 8));
    assert_eq!(lsp_diag.severity, Some(DiagnosticSeverity::Error));
    assert_eq!(lsp_diag.source, Some("lm".to_string()));
    assert!(lsp_diag.message.contains("undefined variable"));
}

#[test]
fn test_convert_severity() {
    assert_eq!(convert_severity(Severity::Error), DiagnosticSeverity::Error);
    assert_eq!(convert_severity(Severity::Warning), DiagnosticSeverity::Warning);
    assert_eq!(convert_severity(Severity::Info), DiagnosticSeverity::Information);
}

#[test]
fn severity_numbers_follow_the_protocol() {
    assert_eq!(DiagnosticSeverity::Error.number(), 1);
    assert_eq!(DiagnosticSeverity::Warning.number(), 2);
    assert_eq!(DiagnosticSeverity::Information.number(), 3);
    assert_eq!(DiagnosticSeverity::Hint.number(), 4);
}

#[test]
fn converted_diagnostic_carries_code_and_help() {
    let diag = Diagnostic::warning("W0001", "unused", Span::new(0, 0, 3)).with_help("remove it");
    let idx = LineIndex::new("abc\ndef");
    let lsp_diag = convert_diagnostic(&diag, &idx);
    assert_eq!(lsp_diag.code, Some("W0001".to_string()));
    assert_eq!(lsp_diag.severity, Some(DiagnosticSeverity::Warning));
    assert_eq!(lsp_diag.message, "unused\n\nhelp: remove it");
    assert_eq!(lsp_diag.range, Range::new(Position::new(0, 0), Position::new(0, 3)));
}

// ---------------------------------------------------------------
// Analysis
// ---------------------------------------------------------------

#[test]
fn test_analyze_valid_program() {
    let source = "fn add(x: Int, y: Int) -> Int {\n  x + y\n}\n";
    let result = analyze(source);
    assert!(result.diagnostics.is_empty());
    assert_eq!(result.symbols.len(), 1);
    assert_eq!(result.symbols[0].name, "add");
    assert_eq!(result.symbols[0].kind, SymbolKind::Function);
}

#[test]
fn test_analyze_with_errors() {
    let source = "fn bad() -> Int {\n  \"hello\"\n}\n";
    let result = analyze(source);
    assert!(!result.diagnostics.is_empty());
}

#[test]
fn test_analyze_type_def() {
    let source = "type Shape = Circle(Float) | Rectangle(Float, Float)\n";
    let result = analyze(source);
    assert!(result.diagnostics.is_empty());
    assert_eq!(result.symbols.len(), 1);
    assert_eq!(result.symbols[0].name, "Shape");
    assert_eq!(result.symbols[0].kind, SymbolKind::Enum);
}

#[test]
fn test_analyze_let_def() {
    let source = "let x: Int = 42;\n";
    let result = analyze(source);
    assert!(result.diagnostics.is_empty());
    assert_eq!(result.symbols.len(), 1);
    assert_eq!(result.symbols[0].name, "x");
    assert_eq!(result.symbols[0].kind, SymbolKind::Variable);
}

#[test]
fn test_analyze_lex_error() {
    let source = "let x = @;\n";
    let result = analyze(source);
    assert!(!result.diagnostics.is_empty());
}

#[test]
fn test_position_in_range() {
    let range = Range::new(Position::new(1, 5), Position::new(1, 10));
    assert!(position_in_range(Position::new(1, 5), range));
    assert!(position_in_range(Position::new(1, 7), range));
    assert!(!position_in_range(Position::new(1, 10), range));
    assert!(!position_in_range(Position::new(0, 7), range));
    assert!(!position_in_range(Position::new(2, 0), range));
}

#[test]
fn test_hover_map_populated() {
    let source = "fn double(x: Int) -> Int {\n  x + x\n}\n";
    let result = analyze(source);
    assert!(!result.hover_map.is_empty());
    let fn_hover = result.hover_map.iter().find(|h| h.description.contains("fn"));
    assert!(fn_hover.is_some());
}

#[test]
fn hover_texts_of_function_and_parameter() {
    let source = "io fn show(x: Int, y) -> String {\n  to_string(x)\n}\n";
    let result = analyze(source);
    assert!(result.diagnostics.is_empty());
    let texts: Vec<&str> = result.hover_map.iter().map(|h| h.description.as_str()).collect();
    assert_eq!(texts, vec!["io fn(x: Int, y) -> String", "x: Int"]);
    assert_eq!(result.symbols[0].detail.as_deref(), Some("io fn(x: Int, y) -> String"));
    assert_eq!(result.hover_map[0].range, Range::new(Position::new(0, 0), Position::new(2, 1)));
}

#[test]
fn hover_text_of_top_level_binding() {
    let result = analyze("let a: Option<Int> = Some(1);\nlet b = 2;\n");
    let texts: Vec<&str> = result.hover_map.iter().map(|h| h.description.as_str()).collect();
    assert_eq!(texts, vec!["let a: Option<Int>", "let b"]);
}

#[test]
fn type_symbol_has_parameters_and_variant_children() {
    let result = analyze("type Pair<A, B> = Both(A, B) | Neither\n");
    assert!(result.diagnostics.is_empty());
    let sym = &result.symbols[0];
    assert_eq!(sym.detail.as_deref(), Some("<A, B>"));
    let children = sym.children.as_ref().unwrap();
    assert_eq!(children.len(), 2);
    assert_eq!(children[0].name, "Both");
    assert_eq!(children[0].kind, SymbolKind::EnumMember);
    assert_eq!(children[1].name, "Neither");
    assert!(result.hover_map.is_empty());
}

#[test]
fn definitions_link_uses_to_bindings() {
    let source = "fn f(x: Int) -> Int {\n  let y = x;\n  y\n}\n";
    let result = analyze(source);
    assert!(result.diagnostics.is_empty());
    assert_eq!(result.def_map.len(), 2);
    // `x` on line 1 links to the parameter `x: Int`.
    assert_eq!(result.def_map[0].usage_range, Range::new(Position::new(1, 10), Position::new(1, 11)));
    assert_eq!(result.def_map[0].def_range, Range::new(Position::new(0, 5), Position::new(0, 11)));
    // `y` on line 2 links to the `let` expression.
    assert_eq!(result.def_map[1].usage_range, Range::new(Position::new(2, 2), Position::new(2, 3)));
    assert_eq!(result.def_map[1].def_range.start, Position::new(1, 2));
}

#[test]
fn definitions_in_match_arms_use_pattern_bindings() {
    let source = "fn g(o: Option<Int>) -> Int {\n  match o {\n    Some(v) -> v,\n    None -> 0\n  }\n}\n";
    let result = analyze(source);
    let uses: Vec<(u32, u32)> = result.def_map.iter().map(|d| (d.usage_range.start.line, d.def_range.start.line)).collect();
    assert_eq!(uses, vec![(1, 0), (2, 2)]);
    assert_eq!(result.def_map[1].def_range, Range::new(Position::new(2, 9), Position::new(2, 10)));
}

#[test]
fn unknown_names_get_no_definition() {
    let result = analyze("let a = b;\n");
    assert!(result.def_map.is_empty());
    assert!(!result.diagnostics.is_empty());
}

#[test]
fn find_hover_takes_the_last_match() {
    let r = Range::new(Position::new(0, 0), Position::new(5, 0));
    let entries = vec![
        HoverEntry { range: r, description: "outer".to_string() },
        HoverEntry { range: Range::new(Position::new(1, 0), Position::new(1, 4)), description: "inner".to_string() },
    ];
    assert_eq!(find_hover(&entries, Position::new(1, 2)).unwrap().description, "inner");
    assert_eq!(find_hover(&entries, Position::new(2, 2)).unwrap().description, "outer");
    assert!(find_hover(&entries, Position::new(6, 0)).is_none());
}

#[test]
fn find_definition_takes_the_first_match() {
    let a = Range::new(Position::new(0, 0), Position::new(0, 3));
    let b = Range::new(Position::new(4, 0), Position::new(4, 3));
    let entries = vec![
        DefEntry { usage_range: Range::new(Position::new(1, 0), Position::new(1, 5)), def_range: a },
        DefEntry { usage_range: Range::new(Position::new(1, 2), Position::new(1, 3)), def_range: b },
    ];
    assert_eq!(find_definition(&entries, Position::new(1, 2)).unwrap().def_range, a);
    assert!(find_definition(&entries, Position::new(1, 5)).is_none());
}

#[test]
fn display_text_of_type_annotations() {
    let sp = Span::new(0, 0, 0);
    let int = |n: &str| TypeAnnotation { kind: TypeKind::Name { name: n.to_string() }, span: sp };
    let f = TypeAnnotation {
        kind: TypeKind::Fn {
            params: vec![int("Int"), TypeAnnotation { kind: TypeKind::App { name: "List".to_string(), args: vec![int("A")] }, span: sp }],
            ret: Box::new(int("Bool")),
        },
        span: sp,
    };
    assert_eq!(type_annotation_to_string(&f), "(Int, List<A>) -> Bool");
    let params = vec![
        Param { name: "p".to_string(), type_annotation: Some(f), span: sp },
        Param { name: "q".to_string(), type_annotation: None, span: sp },
    ];
    assert_eq!(build_fn_detail(Effect::Pure, &params, None), "fn(p: (Int, List<A>) -> Bool, q)");
}
