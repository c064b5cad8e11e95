//! Parsing: the shape of the syntax tree, operator precedence and error
//! recovery. Trees are compared in a compact bracketed form.

use lm_lang::ast::{
    BinOp, Decl, DeclKind, Effect, Expr, ExprKind, LitValue, Pattern, PatternKind, Program, TypeAnnotation, TypeKind,
    UnOp,
};
use lm_lang::diagnostics::{Diagnostic, Severity};
use lm_lang::lexer::Lexer;
use lm_lang::parser::Parser;

fn lit(v: &LitValue) -> String {
    match v {
        LitValue::Int(n) => n.to_string(),
        LitValue::Float(t) => t.clone(),
        LitValue::String(s) => format!("{:?}", s),
        LitValue::Bool(b) => b.to_string(),
        LitValue::Unit => "()".to_string(),
    }
}

fn ty(t: &TypeAnnotation) -> String {
    match &t.kind {
        TypeKind::Name { name } => name.clone(),
        TypeKind::App { name, args } => format!("{}<{}>", name, args.iter().map(ty).collect::<Vec<_>>().join(", ")),
        TypeKind::Fn { params, ret } => {
            format!("({}) -> {}", params.iter().map(ty).collect::<Vec<_>>().join(", "), ty(ret))
        }
    }
}

fn binop(op: BinOp) -> &'static str {
    match op {
        BinOp::Add => "+",
        BinOp::Sub => "-",
        BinOp::Mul => "*",
        BinOp::Div => "/",
        BinOp::Mod => "%",
        BinOp::Concat => "++",
        BinOp::Eq => "==",
        BinOp::Ne => "!=",
        BinOp::Lt => "<",
        BinOp::Le => "<=",
        BinOp::Gt => ">",
        BinOp::Ge => ">=",
        BinOp::And => "&&",
        BinOp::Or => "||",
    }
}

fn pat(p: &Pattern) -> String {
    match &p.kind {
        PatternKind::Literal { value } => lit(value),
        PatternKind::Ident { name } => name.clone(),
        PatternKind::Variant { name, fields } => {
            format!("{}({})", name, fields.iter().map(pat).collect::<Vec<_>>().join(", "))
        }
        PatternKind::Wildcard => "_".to_string(),
    }
}

fn with_args(head: String, args: &[Expr]) -> String {
    let mut s = format!("({}", head);
    for a in args {
        s.push(' ');
        s.push_str(&expr(a));
    }
    s.push(')');
    s
}

fn expr(e: &Expr) -> String {
    match &e.kind {
        ExprKind::Literal { value } => lit(value),
        ExprKind::Ident { name } => name.clone(),
        ExprKind::BinaryOp { op, lhs, rhs } => format!("({} {} {})", binop(*op), expr(lhs), expr(rhs)),
        ExprKind::UnaryOp { op, operand } => {
            let o = match op {
                UnOp::Not => "!",
                UnOp::Neg => "-",
            };
            format!("({} {})", o, expr(operand))
        }
        ExprKind::FnCall { callee, args } => with_args(format!("call {}", expr(callee)), args),
        ExprKind::LetExpr { name, type_annotation, value, body } => {
            let ann = type_annotation.as_ref().map(|t| format!(": {}", ty(t))).unwrap_or_default();
            format!("(let {}{} {} {})", name, ann, expr(value), expr(body))
        }
        ExprKind::IfElse { condition, then_branch, else_branch } => {
            format!("(if {} {} {})", expr(condition), expr(then_branch), expr(else_branch))
        }
        ExprKind::Match { scrutinee, arms } => {
            let mut s = format!("(match {}", expr(scrutinee));
            for arm in arms {
                s.push_str(&format!(" [{} => {}]", pat(&arm.pattern), expr(&arm.body)));
            }
            s.push(')');
            s
        }
        ExprKind::Block { exprs } => format!("{{{}}}", exprs.iter().map(expr).collect::<Vec<_>>().join("; ")),
        ExprKind::ListLiteral { elements } => format!("[{}]", elements.iter().map(expr).collect::<Vec<_>>().join(", ")),
        ExprKind::VariantConstruct { name, args } => with_args(format!("variant {}", name), args),
        ExprKind::Error => "<error>".to_string(),
    }
}

fn decl(d: &Decl) -> String {
    match &d.kind {
        DeclKind::FnDef { name, effect, params, return_type, body } => {
            let e = match effect {
                Effect::Pure => "fn",
                Effect::Io => "io fn",
            };
            let ps: Vec<String> = params
                .iter()
                .map(|p| match &p.type_annotation {
                    Some(t) => format!("{}: {}", p.name, ty(t)),
                    None => p.name.clone(),
                })
                .collect();
            let ret = return_type.as_ref().map(|t| format!(" -> {}", ty(t))).unwrap_or_default();
            format!("{} {}({}){} {}", e, name, ps.join(", "), ret, expr(body))
        }
        DeclKind::TypeDef { name, type_params, variants } => {
            let tps = if type_params.is_empty() { String::new() } else { format!("<{}>", type_params.join(", ")) };
            let vs: Vec<String> = variants
                .iter()
                .map(|v| {
                    if v.fields.is_empty() {
                        v.name.clone()
                    } else {
                        format!("{}({})", v.name, v.fields.iter().map(ty).collect::<Vec<_>>().join(", "))
                    }
                })
                .collect();
            format!("type {}{} = {}", name, tps, vs.join(" | "))
        }
        DeclKind::LetDef { name, type_annotation, value } => {
            let ann = type_annotation.as_ref().map(|t| format!(": {}", ty(t))).unwrap_or_default();
            format!("let {}{} = {}", name, ann, expr(value))
        }
    }
}

/// Parses `source`, returning its declarations in bracketed form and the
/// codes and messages of the parse diagnostics.
fn parse_snapshot(source: &str) -> (Vec<String>, Vec<(String, String)>) {
    let (tokens, _lex_diags) = Lexer::new(source, 0).tokenize();
    let (program, diagnostics): (Program, Vec<Diagnostic>) = Parser::new(tokens).parse();
    for d in &diagnostics {
        assert_eq!(d.severity, Severity::Error);
    }
    (
        program.decls.iter().map(decl).collect(),
        diagnostics.iter().map(|d| (d.code.0.clone(), d.message.clone())).collect(),
    )
}

fn parses_to(source: &str, expected: &[&str]) {
    let (decls, diags) = parse_snapshot(source);
    assert!(diags.is_empty(), "unexpected diagnostics: {:?}", diags);
    assert_eq!(decls, expected);
}

fn codes(diags: &[(String, String)]) -> Vec<&str> {
    diags.iter().map(|(c, _)| c.as_str()).collect()
}

// ---------------------------------------------------------------
// Expressions
// ---------------------------------------------------------------

#[test]
fn test_integer_literal() {
    parses_to("let x = 42;", &["let x = 42"]);
}

#[test]
fn test_float_literal() {
    parses_to("let x = 3.14;", &["let x = 3.14"]);
}

#[test]
fn test_string_literal() {
    parses_to(r#"let x = "hello";"#, &[r#"let x = "hello""#]);
}

#[test]
fn test_bool_literal() {
    parses_to("let x = true;", &["let x = true"]);
}

#[test]
fn test_binary_ops() {
    parses_to("let x = 1 + 2 * 3;", &["let x = (+ 1 (* 2 3))"]);
}

#[test]
fn test_precedence_add_mul() {
    parses_to("let x = 1 + 2 * 3;", &["let x = (+ 1 (* 2 3))"]);
}

#[test]
fn test_precedence_comparison() {
    parses_to("let x = a + b < c * d;", &["let x = (< (+ a b) (* c d))"]);
}

#[test]
fn test_precedence_logical() {
    parses_to("let x = a && b || c;", &["let x = (|| (&& a b) c)"]);
}

#[test]
fn test_unary_not() {
    parses_to("let x = !true;", &["let x = (! true)"]);
}

#[test]
fn test_unary_neg() {
    parses_to("let x = -42;", &["let x = (- 42)"]);
}

#[test]
fn test_function_call() {
    parses_to("let x = add(1, 2);", &["let x = (call add 1 2)"]);
}

#[test]
fn test_nested_function_call() {
    parses_to("let x = f(g(1));", &["let x = (call f (call g 1))"]);
}

#[test]
fn test_string_concat() {
    parses_to(r#"let x = "hello" ++ " " ++ "world";"#, &[r#"let x = (++ (++ "hello" " ") "world")"#]);
}

#[test]
fn test_if_else() {
    parses_to(
        "fn f(x: Int) -> Int { if x > 0 { x } else { 0 } }",
        &["fn f(x: Int) -> Int {(if (> x 0) {x} {0})}"],
    );
}

#[test]
fn test_match_expr() {
    parses_to(
        "fn f(x: Int) -> String {
    match x {
        0 -> \"zero\",
        1 -> \"one\",
        _ -> \"other\",
    }
}",
        &[r#"fn f(x: Int) -> String {(match x [0 => "zero"] [1 => "one"] [_ => "other"])}"#],
    );
}

#[test]
fn test_match_variant_pattern() {
    parses_to(
        "fn area(s: Shape) -> Float {
    match s {
        Circle(r) -> 3.14 * r * r,
        Rect(w, h) -> w * h,
    }
}",
        &["fn area(s: Shape) -> Float {(match s [Circle(r) => (* (* 3.14 r) r)] [Rect(w, h) => (* w h)])}"],
    );
}

#[test]
fn test_block_expr() {
    parses_to(
        "fn f() -> Int { let x = 1; let y = 2; x + y }",
        &["fn f() -> Int {(let x 1 (let y 2 (+ x y)))}"],
    );
}

#[test]
fn test_variant_construct() {
    parses_to("let x = Circle(5.0);", &["let x = (variant Circle 5.0)"]);
}

#[test]
fn test_variant_construct_unit() {
    parses_to("let x = None;", &["let x = (variant None)"]);
}

#[test]
fn test_parenthesized_expr() {
    parses_to("let x = (1 + 2) * 3;", &["let x = (* (+ 1 2) 3)"]);
}

#[test]
fn test_left_associativity() {
    parses_to("let x = 1 - 2 - 3;", &["let x = (- (- 1 2) 3)"]);
}

#[test]
fn unit_list_and_negative_patterns() {
    parses_to(
        "let u = ();\nfn g(n) { match n { -1 -> [], _ -> [n, n] } }",
        &["let u = ()", "fn g(n) {(match n [-1 => []] [_ => [n, n]])}"],
    );
}

#[test]
fn parenthesized_span_covers_the_brackets() {
    let (tokens, _) = Lexer::new("let x = (1 + 2);", 0).tokenize();
    let (program, _) = Parser::new(tokens).parse();
    match &program.decls[0].kind {
        DeclKind::LetDef { value, .. } => {
            assert_eq!(value.span.start, 8);
            assert_eq!(value.span.end, 15);
        }
        _ => panic!("expected a let binding"),
    }
    assert_eq!(program.decls[0].span.start, 0);
    assert_eq!(program.decls[0].span.end, 16);
}

// ---------------------------------------------------------------
// Declarations
// ---------------------------------------------------------------

#[test]
fn test_fn_no_annotations() {
    parses_to("fn add(a, b) { a + b }", &["fn add(a, b) {(+ a b)}"]);
}

#[test]
fn test_fn_with_annotations() {
    parses_to("fn add(a: Int, b: Int) -> Int { a + b }", &["fn add(a: Int, b: Int) -> Int {(+ a b)}"]);
}

#[test]
fn test_io_fn() {
    parses_to(
        "io fn greet(name: String) -> Unit { print(name) }",
        &["io fn greet(name: String) -> Unit {(call print name)}"],
    );
}

#[test]
fn test_type_def() {
    parses_to(
        "type Shape =
    | Circle(Float)
    | Rect(Float, Float)",
        &["type Shape = Circle(Float) | Rect(Float, Float)"],
    );
}

#[test]
fn test_type_def_with_type_params() {
    parses_to(
        "type Result<T, E> =
    | Ok(T)
    | Err(E)",
        &["type Result<T, E> = Ok(T) | Err(E)"],
    );
}

#[test]
fn test_type_annotation_generic() {
    parses_to(
        "fn safe_div(a: Int, b: Int) -> Result<Int, String> { a / b }",
        &["fn safe_div(a: Int, b: Int) -> Result<Int, String> {(/ a b)}"],
    );
}

#[test]
fn function_type_annotation() {
    parses_to(
        "fn apply(f: (Int, Int) -> Bool, x: Int) -> Bool { f(x, x) }",
        &["fn apply(f: (Int, Int) -> Bool, x: Int) -> Bool {(call f x x)}"],
    );
}

// ---------------------------------------------------------------
// Error recovery
// ---------------------------------------------------------------

#[test]
fn test_error_missing_semicolon() {
    let (decls, diags) = parse_snapshot("let x = 42\nlet y = 10;");
    assert_eq!(decls, vec!["let x = 42", "let y = 10"]);
    assert_eq!(codes(&diags), vec!["E0105"]);
    assert_eq!(diags[0].1, "expected `;` after let binding");
}

#[test]
fn test_error_unclosed_paren() {
    let (decls, diags) = parse_snapshot("let x = f(1, 2;");
    assert_eq!(decls, vec!["let x = (call f 1 2)"]);
    assert_eq!(codes(&diags), vec!["E0104"]);
    assert_eq!(diags[0].1, "unclosed `(` in function call");
}

#[test]
fn test_error_unexpected_token() {
    let (decls, diags) = parse_snapshot("+ 42;");
    assert!(decls.is_empty());
    assert_eq!(codes(&diags), vec!["E0100"]);
    assert_eq!(diags[0].1, "unexpected token `+`, expected a declaration (`fn`, `type`, or `let`)");
}

#[test]
fn test_error_missing_else() {
    let (decls, diags) = parse_snapshot("fn f(x: Int) -> Int { if x > 0 { x } }");
    assert_eq!(decls, vec!["fn f(x: Int) -> Int {}"]);
    assert_eq!(codes(&diags), vec!["E0108"]);
    assert_eq!(diags[0].1, "missing `else` branch in if expression");
}

#[test]
fn test_multi_error_recovery() {
    let (decls, diags) = parse_snapshot("let x = ;\nlet y = ;\nlet z = 42;");
    assert_eq!(decls, vec!["let z = 42"]);
    assert_eq!(codes(&diags), vec!["E0101", "E0101"]);
    assert_eq!(diags[0].1, "expected expression, found `;`");
}

#[test]
fn test_error_missing_arrow_in_match() {
    let (decls, diags) = parse_snapshot("fn f(x: Int) -> Int { match x { 0 \"zero\" } }");
    assert_eq!(decls, vec!["fn f(x: Int) -> Int {(match x)}"]);
    assert_eq!(codes(&diags), vec!["E0106"]);
    assert_eq!(diags[0].1, "expected `->` in match arm");
}

#[test]
fn test_error_missing_eq_in_let() {
    let (decls, diags) = parse_snapshot("let x 42;");
    assert!(decls.is_empty());
    assert_eq!(codes(&diags), vec!["E0107"]);
    assert_eq!(diags[0].1, "expected `=` in let binding");
}

#[test]
fn integer_literal_out_of_range() {
    let (decls, diags) = parse_snapshot("let x = 9223372036854775808;");
    assert_eq!(decls, vec!["let x = <error>"]);
    assert_eq!(codes(&diags), vec!["E0100"]);
    assert_eq!(diags[0].1, "integer literal `9223372036854775808` is out of range for Int");
}

#[test]
fn most_negative_integer_pattern() {
    let (decls, diags) = parse_snapshot("fn f(n) { match n { -9223372036854775808 -> 0, _ -> 1 } }");
    assert!(diags.is_empty());
    assert_eq!(decls, vec!["fn f(n) {(match n [-9223372036854775808 => 0] [_ => 1])}"]);
}

#[test]
fn io_without_fn() {
    let (decls, diags) = parse_snapshot("io let x = 1;");
    assert_eq!(decls, vec!["let x = 1"]);
    assert_eq!(codes(&diags), vec!["E0100"]);
    assert_eq!(diags[0].1, "expected `fn` after `io`");
}

#[test]
fn empty_program_has_no_declarations() {
    let (tokens, _) = Lexer::new("", 0).tokenize();
    let (program, diags) = Parser::new(tokens).parse();
    assert!(program.decls.is_empty());
    assert!(diags.is_empty());
    assert_eq!(program.span.start, 0);
    assert_eq!(program.span.end, 0);
}

#[test]
fn recovery_after_lets_without_values() {
    let (tokens, _) = Lexer::new("let x = ;\nlet y = ;\nlet z = 42;", 0).tokenize();
    let (program, diags) = Parser::new(tokens).parse();
    assert_eq!(program.decls.len(), 1);
    match &program.decls[0].kind {
        DeclKind::LetDef { name, type_annotation, value } => {
            assert_eq!(name, "z");
            assert!(type_annotation.is_none());
            assert!(matches!(value.kind, ExprKind::Literal { value: LitValue::Int(42) }));
        }
        _ => panic!("expected a let binding"),
    }
    assert_eq!(diags.len(), 2);
    assert!(diags.iter().all(|d| d.code.0 == "E0101" && d.severity == Severity::Error));
}

#[test]
fn negative_literal_in_variant_pattern() {
    let (tokens, _) = Lexer::new("fn f(o: Option<Int>) -> Int { match o { Some(-1) -> 0, _ -> 1 } }", 0).tokenize();
    let (program, diags) = Parser::new(tokens).parse();
    assert!(diags.is_empty());
    match &program.decls[0].kind {
        DeclKind::FnDef { body, .. } => match &body.kind {
            ExprKind::Block { exprs } => match &exprs[0].kind {
                ExprKind::Match { arms, .. } => {
                    assert_eq!(pat(&arms[0].pattern), "Some(-1)");
                    assert!(matches!(arms[1].pattern.kind, PatternKind::Wildcard));
                }
                _ => panic!("expected a match"),
            },
            _ => panic!("expected a block"),
        },
        _ => panic!("expected a function"),
    }
}

#[test]
fn missing_right_operand_keeps_left() {
    let (tokens, _) = Lexer::new("let a = 1 + ;\nlet b = -2 * 3;", 0).tokenize();
    let (program, diags) = Parser::new(tokens).parse();
    assert_eq!(diags.len(), 2);
    assert_eq!(diags[0].code.0, "E0101");
    assert_eq!(diags[0].message, "expected expression, found `;`");
    assert_eq!(diags[1].code.0, "E0101");
    assert_eq!(diags[1].message, "expected expression after `+`");
    assert_eq!(program.decls.len(), 2);
    match &program.decls[0].kind {
        DeclKind::LetDef { value, .. } => assert!(matches!(value.kind, ExprKind::Literal { value: LitValue::Int(1) })),
        _ => panic!("expected a let binding"),
    }
    match &program.decls[1].kind {
        DeclKind::LetDef { value, .. } => match &value.kind {
            ExprKind::BinaryOp { op: BinOp::Mul, lhs, .. } => {
                assert!(matches!(lhs.kind, ExprKind::UnaryOp { op: UnOp::Neg, .. }))
            }
            _ => panic!("expected a product"),
        },
        _ => panic!("expected a let binding"),
    }
}

#[test]
fn call_and_parentheses_in_operator_expression() {
    let (tokens, _) = Lexer::new("let a = f(1, (2 + 3)) * 4;\nlet b = (1;", 0).tokenize();
    let (program, diags) = Parser::new(tokens).parse();
    assert_eq!(program.decls.len(), 2);
    match &program.decls[0].kind {
        DeclKind::LetDef { value, .. } => match &value.kind {
            ExprKind::BinaryOp { op: BinOp::Mul, lhs, .. } => match &lhs.kind {
                ExprKind::FnCall { args, .. } => {
                    assert_eq!(args.len(), 2);
                    assert!(matches!(args[1].kind, ExprKind::BinaryOp { op: BinOp::Add, .. }));
                }
                _ => panic!("expected a call"),
            },
            _ => panic!("expected a product"),
        },
        _ => panic!("expected a let binding"),
    }
    assert_eq!(diags.len(), 1);
    assert_eq!(diags[0].code.0, "E0104");
    assert_eq!(diags[0].message, "unclosed `(`");
}

#[test]
fn variant_construction_in_let() {
    let (tokens, _) = Lexer::new("let a = Some(1 + 2);\nlet b = None;", 0).tokenize();
    let (program, diags) = Parser::new(tokens).parse();
    assert!(diags.is_empty());
    assert_eq!(program.decls.len(), 2);
    match &program.decls[0].kind {
        DeclKind::LetDef { value, .. } => match &value.kind {
            ExprKind::VariantConstruct { name, args } => {
                assert_eq!(name, "Some");
                assert_eq!(args.len(), 1);
            }
            _ => panic!("expected a variant"),
        },
        _ => panic!("expected a let binding"),
    }
}

#[test]
fn list_literal_elements_and_unclosed_bracket() {
    let (tokens, _) = Lexer::new("let a = [1, 2 * 3, x];\nlet b = [1, 2;", 0).tokenize();
    let (program, diags) = Parser::new(tokens).parse();
    assert_eq!(program.decls.len(), 2);
    match &program.decls[0].kind {
        DeclKind::LetDef { value, .. } => match &value.kind {
            ExprKind::ListLiteral { elements } => assert_eq!(elements.len(), 3),
            _ => panic!("expected a list"),
        },
        _ => panic!("expected a let binding"),
    }
    assert_eq!(diags.len(), 1);
    assert_eq!(diags[0].message, "unclosed `[` in list literal");
}

#[test]
fn annotated_lets_and_type_errors() {
    let (tokens, _) = Lexer::new("let a: List<Int> = [1];\nlet f: (Int) -> Bool = g;\nlet b: = 1;\nlet c: Int 2;", 0).tokenize();
    let (program, diags) = Parser::new(tokens).parse();
    assert_eq!(program.decls.len(), 2);
    match &program.decls[0].kind {
        DeclKind::LetDef { type_annotation: Some(t), .. } => assert_eq!(ty(t), "List<Int>"),
        _ => panic!("expected an annotated let"),
    }
    match &program.decls[1].kind {
        DeclKind::LetDef { type_annotation: Some(t), .. } => assert_eq!(ty(t), "(Int) -> Bool"),
        _ => panic!("expected an annotated let"),
    }
    let codes: Vec<&str> = diags.iter().map(|d| d.code.0.as_str()).collect();
    assert_eq!(codes, vec!["E0102", "E0107"]);
}

#[test]
fn function_and_type_definitions_are_read_whole() {
    parses_to(
        "type Shape<T> = | Circle(Float) | Rect(Float, T)\nio fn greet(name: String, _) -> Unit { print(name); 1 }\npure fn id(x) { x }",
        &[
            "type Shape<T> = Circle(Float) | Rect(Float, T)",
            "io fn greet(name: String, _) -> Unit {(call print name); 1}",
            "fn id(x) {x}",
        ],
    );
}

#[test]
fn function_header_errors() {
    let (decls, diags) = parse_snapshot(
        "fn (x) { x }\nfn g x { x }\nio let y = 1;\nfn h(a, _) -> { a }\nfn m(3) { 3 }\nfn k(a { a }",
    );
    assert_eq!(decls, vec!["let y = 1", "fn k(a) {a}"]);
    let expected = [
        ("E0100", "expected function name"),
        ("E0104", "expected `(` after function name"),
        ("E0100", "expected `fn` after `io`"),
        ("E0102", "expected type annotation"),
        ("E0100", "expected parameter name"),
        ("E0104", "unclosed `(` in function parameters"),
        ("E0104", "expected `{`"),
        ("E0104", "unclosed `(` in function parameters"),
    ];
    let expected: Vec<(String, String)> = expected.iter().map(|(c, m)| (c.to_string(), m.to_string())).collect();
    assert_eq!(diags, expected);
}

#[test]
fn type_definition_errors() {
    let (decls, diags) = parse_snapshot("type = A\ntype T<U = A | B(Int\ntype V A");
    assert_eq!(decls, vec!["type T<U> = A | B(Int)"]);
    let expected = [
        ("E0100", "expected type name"),
        ("E0104", "unclosed `<` in type parameters"),
        ("E0104", "unclosed `(` in variant fields"),
        ("E0107", "expected `=` after type name"),
    ];
    let expected: Vec<(String, String)> = expected.iter().map(|(c, m)| (c.to_string(), m.to_string())).collect();
    assert_eq!(diags, expected);
}

#[test]
fn block_statement_recovery() {
    let (decls, diags) = parse_snapshot("fn f() { ) x; 2 }");
    assert_eq!(decls, vec!["fn f() {2}"]);
    assert_eq!(codes(&diags), vec!["E0101"]);
}

#[test]
fn if_else_chains_keep_their_branches() {
    parses_to(
        "fn f(a, b) { if a { 1 } else if b { 2; 3 } else { 4 } }",
        &["fn f(a, b) {(if a {1} (if b {2; 3} {4}))}"],
    );
    let (decls, diags) = parse_snapshot("fn g(a) { if a { 1 } }\nfn h(a) { if a 1 }");
    assert_eq!(decls, vec!["fn g(a) {}", "fn h(a) {}"]);
    let expected = [
        ("E0108", "missing `else` branch in if expression"),
        ("E0104", "expected `{`"),
    ];
    let expected: Vec<(String, String)> = expected.iter().map(|(c, m)| (c.to_string(), m.to_string())).collect();
    assert_eq!(diags, expected);
}

#[test]
fn let_expressions_in_blocks() {
    parses_to("fn f() { let x: Int = 1; x + 2 }", &["fn f() {(let x: Int 1 (+ x 2))}"]);
    let (decls, diags) = parse_snapshot("fn g() { let y = 1 y }");
    assert_eq!(decls, vec!["fn g() {(let y 1 y)}"]);
    assert_eq!(diags, vec![("E0105".to_string(), "expected `;` after let expression value".to_string())]);
}

#[test]
fn match_arms_and_arm_recovery() {
    parses_to(
        "fn h(o) { match o { Some(x) -> x, None -> 0 } }",
        &["fn h(o) {(match o [Some(x) => x] [None() => 0])}"],
    );
    let (decls, diags) = parse_snapshot("fn k(o) { match o { Some(x) 1, _ -> 2 } }");
    assert_eq!(decls, vec!["fn k(o) {(match o [_ => 2])}"]);
    assert_eq!(diags, vec![("E0106".to_string(), "expected `->` in match arm".to_string())]);
}

#[test]
fn nested_forms_in_bodies_and_values() {
    parses_to(
        "fn f(x) { let y = if x > 0 { 1 } else { 2 }; match g(y) { 1 -> { y }, _ -> [y, 3] } }",
        &["fn f(x) {(let y (if (> x 0) {1} {2}) (match (call g y) [1 => {y}] [_ => [y, 3]]))}"],
    );
    parses_to(
        "let v = { let a = 1; a * 2 };\nlet w = match v { 2 -> if true { 1 } else { 0 }, _ -> 0 };",
        &["let v = {(let a 1 (* a 2))}", "let w = (match v [2 => (if true {1} {0})] [_ => 0])"],
    );
}
