//! Type checking of whole programs: lexing, parsing, then inference,
//! effect checking and exhaustiveness checking.

use lm_lang::diagnostics::{Diagnostic, Severity};
use lm_lang::infer::TypeChecker;
use lm_lang::lexer::Lexer;
use lm_lang::parser::Parser;

/// Parses `source` and type-checks it, returning the diagnostics (the parse
/// errors when there are any).
fn check(source: &str) -> Vec<Diagnostic> {
    let (tokens, _) = Lexer::new(source, 0).tokenize();
    let (program, parse_diags) = Parser::new(tokens).parse();
    if parse_diags.iter().any(|d| d.severity == Severity::Error) {
        return parse_diags;
    }
    let checker = TypeChecker::new();
    checker.check(&program)
}

fn listing(diags: &[&Diagnostic]) -> String {
    diags
        .iter()
        .map(|d| format!("  [{}] {:?} {}", d.code.0, d.severity, d.message))
        .collect::<Vec<_>>()
        .join("\n")
}

/// Asserts that checking `source` reports no error.
fn assert_no_errors(source: &str) {
    let diags = check(source);
    let errors: Vec<&Diagnostic> = diags.iter().filter(|d| d.severity == Severity::Error).collect();
    assert!(errors.is_empty(), "expected no errors, got:\n{}", listing(&errors));
}

/// Asserts that checking `source` reports an error with `code`.
fn assert_has_error(source: &str, code: &str) {
    let diags = check(source);
    let has_it = diags.iter().any(|d| d.code.0 == code && d.severity == Severity::Error);
    let all: Vec<&Diagnostic> = diags.iter().collect();
    assert!(has_it, "expected error {}, got:\n{}", code, listing(&all));
}

/// Asserts that checking `source` reports a warning with `code`.
fn assert_has_warning(source: &str, code: &str) {
    let diags = check(source);
    let has_it = diags.iter().any(|d| d.code.0 == code && d.severity == Severity::Warning);
    let all: Vec<&Diagnostic> = diags.iter().collect();
    assert!(has_it, "expected warning {}, got:\n{}", code, listing(&all));
}

// ---------------------------------------------------------------
// Type inference: positive cases
// ---------------------------------------------------------------

#[test]
fn test_literal_int() {
    assert_no_errors("let x = 42;");
}

#[test]
fn test_literal_float() {
    assert_no_errors("let x = 3.14;");
}

#[test]
fn test_literal_string() {
    assert_no_errors(r#"let x = "hello";"#);
}

#[test]
fn test_literal_bool() {
    assert_no_errors("let x = true;");
}

#[test]
fn test_binary_add_int() {
    assert_no_errors("let x = 1 + 2;");
}

#[test]
fn test_binary_add_float() {
    assert_no_errors("let x = 1.0 + 2.0;");
}

#[test]
fn test_binary_sub() {
    assert_no_errors("let x = 10 - 3;");
}

#[test]
fn test_binary_mul() {
    assert_no_errors("let x = 2 * 3;");
}

#[test]
fn test_binary_div() {
    assert_no_errors("let x = 10 / 2;");
}

#[test]
fn tests_test_string_concat() {
    assert_no_errors(r#"let x = "hello" ++ " world";"#);
}

#[test]
fn test_comparison_eq() {
    assert_no_errors("let x = 1 == 2;");
}

#[test]
fn test_comparison_lt() {
    assert_no_errors("let x = 1 < 2;");
}

#[test]
fn test_logical_and() {
    assert_no_errors("let x = true && false;");
}

#[test]
fn test_logical_or() {
    assert_no_errors("let x = true || false;");
}

#[test]
fn tests_test_unary_not() {
    assert_no_errors("let x = !true;");
}

#[test]
fn tests_test_unary_neg() {
    assert_no_errors("let x = -42;");
}

#[test]
fn test_fn_def_and_call() {
    assert_no_errors(
        "fn add(a: Int, b: Int) -> Int { a + b }
         let x = add(1, 2);",
    );
}

#[test]
fn test_fn_no_return_annotation() {
    assert_no_errors(
        "fn double(x: Int) -> Int { x * 2 }
         let y = double(5);",
    );
}

#[test]
fn test_if_else_type_inference() {
    assert_no_errors("let x = if true { 1 } else { 2 };");
}

#[test]
fn test_let_binding_in_expr() {
    assert_no_errors(
        "fn f() -> Int {
            let x = 10;
            x + 5
         }",
    );
}

#[test]
fn test_block_type_is_last_expr() {
    assert_no_errors(
        "fn f() -> Int {
            let a = 1;
            let b = 2;
            a + b
         }",
    );
}

#[test]
fn test_match_on_int_with_wildcard() {
    assert_no_errors(
        "fn f(x: Int) -> String {
            match x {
                0 -> \"zero\",
                _ -> \"other\",
            }
         }",
    );
}

#[test]
fn test_adt_construction_and_matching() {
    assert_no_errors(
        "type Shape = | Circle(Float) | Rect(Float, Float)

         fn area(s: Shape) -> Float {
            match s {
                Circle(r) -> 3.14 * r * r,
                Rect(w, h) -> w * h,
            }
         }

         let c = Circle(5.0);
         let a = area(c);",
    );
}

#[test]
fn tests_test_option_some_none() {
    assert_no_errors(
        "let x = Some(42);
         let y = None;",
    );
}

#[test]
fn tests_test_result_ok_err() {
    assert_no_errors(
        "let x = Ok(42);
         let y = Err(\"oops\");",
    );
}

#[test]
fn test_nested_expressions() {
    assert_no_errors("let x = (1 + 2) * (3 + 4);");
}

#[test]
fn tests_test_hello_example() {
    assert_no_errors(
        "fn add(a: Int, b: Int) -> Int {
            a + b
         }

         io fn greet(name: String) -> Unit {
            print(\"Hello, \" ++ name ++ \"!\")
         }

         let x = 10;
         let y = add(x, 5);",
    );
}

#[test]
fn tests_test_calculator_example() {
    assert_no_errors(
        "type Shape =
            | Circle(Float)
            | Rect(Float, Float)

         fn area(s: Shape) -> Float {
            match s {
                Circle(r) -> 3.14159 * r * r,
                Rect(w, h) -> w * h,
            }
         }

         fn describe(s: Shape) -> String {
            match s {
                Circle(r) -> \"circle with radius \" ++ to_string(r),
                Rect(w, h) -> \"rectangle \" ++ to_string(w) ++ \" x \" ++ to_string(h),
            }
         }

         fn safe_div(a: Int, b: Int) -> Result<Int, String> {
            match b {
                0 -> Err(\"division by zero\"),
                _ -> Ok(a / b),
            }
         }

         let c = Circle(5.0);
         let r = Rect(3.0, 4.0);
         let a1 = area(c);
         let a2 = area(r);
         let result = safe_div(10, 0);",
    );
}

// ---------------------------------------------------------------
// Type errors: negative cases
// ---------------------------------------------------------------

#[test]
fn test_error_add_int_string() {
    assert_has_error(r#"let x = 1 + "hello";"#, "E0206");
}

#[test]
fn test_error_undefined_variable() {
    assert_has_error("let x = y;", "E0201");
}

#[test]
fn test_error_wrong_arg_count() {
    assert_has_error(
        "fn add(a: Int, b: Int) -> Int { a + b }
         let x = add(1);",
        "E0204",
    );
}

#[test]
fn test_error_string_plus_int() {
    assert_has_error(r#"let x = "hi" + 1;"#, "E0206");
}

#[test]
fn test_error_if_branches_different_types() {
    assert_has_error(r#"let x = if true { 1 } else { "hi" };"#, "E0200");
}

#[test]
fn test_error_undefined_type() {
    assert_has_error("fn f(x: Foo) -> Int { 42 }", "E0202");
}

#[test]
fn test_error_undefined_variant() {
    assert_has_error("let x = Banana(42);", "E0203");
}

#[test]
fn test_error_not_on_int() {
    assert_has_error("let x = !42;", "E0206");
}

#[test]
fn test_error_concat_int() {
    assert_has_error("let x = 1 ++ 2;", "E0206");
}

#[test]
fn test_error_and_on_int() {
    assert_has_error("let x = 1 && 2;", "E0206");
}

#[test]
fn test_error_return_type_mismatch() {
    assert_has_error(
        r#"fn f() -> Int { "hello" }"#,
        "E0200",
    );
}

// ---------------------------------------------------------------
// Effect checking
// ---------------------------------------------------------------

#[test]
fn test_effect_pure_calling_pure_ok() {
    assert_no_errors(
        "fn add(a: Int, b: Int) -> Int { a + b }
         fn double(x: Int) -> Int { add(x, x) }",
    );
}

#[test]
fn test_effect_io_calling_pure_ok() {
    assert_no_errors(
        "fn add(a: Int, b: Int) -> Int { a + b }
         io fn show(x: Int) -> Unit { print(to_string(add(x, 0))) }",
    );
}

#[test]
fn test_effect_io_calling_io_ok() {
    assert_no_errors(
        "io fn greet(name: String) -> Unit { print(name) }
         io fn greet2(name: String) -> Unit { greet(name) }",
    );
}

#[test]
fn test_effect_pure_calling_io_error() {
    assert_has_error(
        "fn bad() -> Unit { print(\"oops\") }",
        "E0300",
    );
}

#[test]
fn test_effect_transitive_io() {
    // greet is io, so if double_greet is pure and calls greet, it's an error
    assert_has_error(
        "io fn greet(name: String) -> Unit { print(name) }
         fn double_greet(name: String) -> Unit { greet(name) }",
        "E0300",
    );
}

// ---------------------------------------------------------------
// Exhaustiveness checking
// ---------------------------------------------------------------

#[test]
fn test_exhaustive_adt_all_variants() {
    assert_no_errors(
        "type Color = | Red | Green | Blue

         fn name(c: Color) -> String {
            match c {
                Red -> \"red\",
                Green -> \"green\",
                Blue -> \"blue\",
            }
         }",
    );
}

#[test]
fn test_nonexhaustive_adt_missing_variant() {
    assert_has_error(
        "type Color = | Red | Green | Blue

         fn name(c: Color) -> String {
            match c {
                Red -> \"red\",
                Green -> \"green\",
            }
         }",
        "E0400",
    );
}

#[test]
fn test_exhaustive_with_wildcard() {
    assert_no_errors(
        "type Color = | Red | Green | Blue

         fn name(c: Color) -> String {
            match c {
                Red -> \"red\",
                _ -> \"other\",
            }
         }",
    );
}

#[test]
fn test_nonexhaustive_bool_missing() {
    assert_has_error(
        "fn f(b: Bool) -> Int {
            match b {
                true -> 1,
            }
         }",
        "E0400",
    );
}

#[test]
fn test_exhaustive_bool_both() {
    assert_no_errors(
        "fn f(b: Bool) -> Int {
            match b {
                true -> 1,
                false -> 0,
            }
         }",
    );
}

#[test]
fn test_unreachable_pattern_after_wildcard() {
    assert_has_warning(
        "fn f(x: Int) -> Int {
            match x {
                _ -> 0,
                1 -> 1,
            }
         }",
        "E0401",
    );
}

#[test]
fn test_nonexhaustive_int_no_wildcard() {
    assert_has_error(
        "fn f(x: Int) -> Int {
            match x {
                0 -> 0,
                1 -> 1,
            }
         }",
        "E0400",
    );
}

#[test]
fn test_nonexhaustive_option_missing_none() {
    assert_has_error(
        "fn f(x: Int) -> Int {
            let opt = Some(x);
            match opt {
                Some(v) -> v,
            }
         }",
        "E0400",
    );
}

#[test]
fn test_exhaustive_result() {
    assert_no_errors(
        "fn safe_div(a: Int, b: Int) -> Result<Int, String> {
            match b {
                0 -> Err(\"division by zero\"),
                _ -> Ok(a / b),
            }
         }

         fn handle(r: Result<Int, String>) -> Int {
            match r {
                Ok(v) -> v,
                Err(e) -> 0,
            }
         }",
    );
}

#[test]
fn string_builtins_type_check() {
    assert_no_errors(
        "let n = str_len(\"hello\");
         let first = char_at(\"abc\", 0);
         let code = char_code(first);
         let back = from_char_code(code);
         let f = to_float(n);
         let i = to_int(f);",
    );
    assert_has_error("let n = str_len(1);", "E0200");
}

#[test]
fn list_map_is_io() {
    assert_has_error(
        "fn f(l: List<Int>, g: (Int) -> Int) -> List<Int> { list_map(l, g) }",
        "E0300",
    );
    assert_no_errors("io fn f(l: List<Int>, g: (Int) -> Int) -> List<Int> { list_map(l, g) }");
}

#[test]
fn underscore_binds_and_matches() {
    assert_no_errors(
        "io fn greet(s: String) -> Unit { print(s) }
         let _ = greet(\"world\");
         fn f(n: Int) -> Int { match n { 0 -> 1, _ -> 2 } }",
    );
}

#[test]
fn literal_operand_errors_are_exact() {
    let d = check("let x = 1 + \"a\";");
    assert_eq!(d.len(), 1);
    assert_eq!(d[0].code.0, "E0206");
    assert_eq!(d[0].message, "operator `+` requires matching types, found `Int` and `String`");
    let d = check("let x = \"a\" + \"b\";");
    assert_eq!(d[0].message, "operator `+` requires numeric types, found `String`");
    let d = check("let x = \"a\" ++ 2;");
    assert_eq!(d[0].message, "operator `++` requires String, found `Int`");
    let d = check("let x = true && 1;");
    assert_eq!(d[0].message, "operator `&&` requires Bool, found `Int`");
}

#[test]
fn literal_body_against_return_type() {
    let d = check("fn f() -> Int { \"s\" }");
    assert_eq!(d.len(), 1);
    assert_eq!(d[0].code.0, "E0200");
    assert_eq!(d[0].message, "type mismatch in function `f`: expected `Int`, found `String`");
    assert!(check("fn g() -> Int { 3 }").is_empty());
}

#[test]
fn literal_variant_arguments_against_fields() {
    let d = check("type P = | P(Int, String)\nlet x = P(\"a\", \"b\");");
    assert_eq!(d.len(), 1);
    assert_eq!(d[0].code.0, "E0200");
    assert_eq!(d[0].message, "type mismatch in variant constructor: expected `Int`, found `String`");
    assert!(check("type P = | P(Int, String)\nlet x = P(1, \"b\");").is_empty());
}

#[test]
fn operator_lets_report_in_order() {
    let d = check("let a = 1 + \"x\";\nlet b = !3;\nlet c = -true;\nlet e = (1 < 2) && true;");
    let msgs: Vec<&str> = d.iter().map(|x| x.message.as_str()).collect();
    assert_eq!(
        msgs,
        vec![
            "operator `+` requires matching types, found `Int` and `String`",
            "operator `!` requires Bool, found `Int`",
            "operator `-` requires numeric type, found `Bool`",
        ]
    );
    assert!(d.iter().all(|x| x.code.0 == "E0206"));
}

#[test]
fn string_variables_are_not_numbers() {
    let d = check("let a = \"x\";\nlet b = \"y\";\nlet c = a + b;");
    assert_eq!(d.len(), 1);
    assert_eq!(d[0].code.0, "E0206");
    assert_eq!(d[0].message, "operator `+` requires numeric types, found `String`");
    let d = check("let i = 1;\nlet f = 2.0;\nlet c = i + f;");
    assert_eq!(d.len(), 1);
    assert_eq!(d[0].message, "operator `+` requires matching types, found `Int` and `Float`");
}

#[test]
fn parameter_body_against_return_type() {
    let d = check("fn f(x: Int) -> String { x + 1 }");
    assert_eq!(d.len(), 1);
    assert_eq!(d[0].code.0, "E0200");
    assert_eq!(d[0].message, "type mismatch in function `f`: expected `String`, found `Int`");
    assert!(check("fn g(x: Int, y: Int) -> Bool { x < y }").is_empty());
    let d = check("fn h(s: String) -> Int { s ++ 1 }");
    assert_eq!(d.len(), 1);
    assert_eq!(d[0].message, "operator `++` requires String, found `Int`");
}

#[test]
fn variable_arguments_against_field_types() {
    let d = check("type Wrap = W(Int)\nlet s = \"x\";\nlet v = W(s);");
    assert_eq!(d.len(), 1);
    assert_eq!(d[0].code.0, "E0200");
    assert_eq!(d[0].message, "type mismatch in variant constructor: expected `Int`, found `String`");
}

#[test]
fn some_pattern_binds_the_inner_type() {
    assert!(check("fn f(o: Option<Int>) -> Int { match o { Some(x) -> x + 1, None -> 0 } }").is_empty());
    let d = check("fn f(o: Option<Int>) -> String { match o { Some(x) -> x ++ \"a\", None -> \"b\" } }");
    assert!(d.iter().any(|d| d.code.0 == "E0206" && d.message == "operator `++` requires String, found `Int`"));
}

#[test]
fn let_programs_with_names_are_checked_exactly() {
    let d = check("let a = 1;\nlet b = a * 2;\nlet c = b ++ \"x\";\nlet e = a < b;");
    assert_eq!(d.len(), 1);
    assert_eq!(d[0].code.0, "E0206");
    assert_eq!(d[0].message, "operator `++` requires String, found `Int`");
}

#[test]
fn compound_return_types_against_base_bodies() {
    let d = check("fn f() -> List<Int> { 1 }");
    assert_eq!(d.len(), 1);
    assert_eq!(d[0].code.0, "E0200");
    assert_eq!(d[0].message, "type mismatch in function `f`: expected `List<Int>`, found `Int`");
    let d = check("fn g(b: Bool) -> Option<Bool> { !b }");
    assert_eq!(d.len(), 1);
    assert_eq!(d[0].message, "type mismatch in function `g`: expected `Option<Bool>`, found `Bool`");
}

#[test]
fn user_variant_patterns_fix_the_scrutinee_type() {
    assert!(check("type Color = Red | Green\nfn f(c) -> Int { match c { Red -> 1, Green -> 2 } }").is_empty());
    let d = check("type Color = Red | Green\nfn f(c) -> Int { match c { Red -> 1, Green -> 2 } }\nlet x = f(1);");
    assert!(d.iter().any(|d| d.code.0 == "E0200"));
}

#[test]
fn programs_of_simple_functions_and_lets() {
    let d = check("fn f(x: Int) -> String { x + 1 }\nlet y = 2;\nfn g(b: Bool, n: Int) -> Bool { !b }\nfn h() -> Float { 1 }");
    assert_eq!(d.len(), 2);
    assert_eq!(d[0].code.0, "E0200");
    assert_eq!(d[0].message, "type mismatch in function `f`: expected `String`, found `Int`");
    assert_eq!(d[1].code.0, "E0200");
    assert_eq!(d[1].message, "type mismatch in function `h`: expected `Float`, found `Int`");
    assert!(check("fn k(a: Int, b: Int) -> Int { a * b - 1 }\nlet z = 3 + 4;").is_empty());
}

#[test]
fn if_and_let_expressions_in_function_bodies() {
    let d = check("fn f(x: Int) -> Int { if x > 0 { 1 } else { \"a\" } }");
    assert_eq!(d.len(), 1);
    assert_eq!(d[0].code.0, "E0200");
    assert_eq!(d[0].message, "if branches have incompatible types: `Int` and `String`");
    let d = check("fn g(x: Int) -> Int { if x { 1 } else { 2 } }");
    assert_eq!(d.len(), 1);
    assert_eq!(d[0].message, "if condition must be Bool, found `Int`");
    let d = check("fn h(x: Int) -> String { let y = x * 2; y + 1 }");
    assert_eq!(d.len(), 1);
    assert_eq!(d[0].message, "type mismatch in function `h`: expected `String`, found `Int`");
    assert!(check("fn k(x: Int) -> Bool { let y = x + 1; if y > 2 { true } else { false } }").is_empty());
}

#[test]
fn variant_pattern_fields_bind_the_field_types() {
    let shape = "type Shape = Circle(Float) | Rect(Int, Int)\n";
    assert!(check(&format!("{}fn area(s: Shape) -> Int {{ match s {{ Rect(w, h) -> w * h, Circle(r) -> 0 }} }}", shape)).is_empty());
    let d = check(&format!("{}fn bad(s: Shape) -> Int {{ match s {{ Rect(w, h) -> w ++ h, Circle(r) -> 0 }} }}", shape));
    assert!(d.iter().any(|d| d.code.0 == "E0206" && d.message == "operator `++` requires String, found `Int`"));
}

#[test]
fn programs_with_type_definitions_and_simple_functions() {
    let d = check("type Pair = P(Int, Int) | Q\nfn f(x: Int) -> Bool { x }\nlet n = 1 + 2;");
    assert_eq!(d.len(), 1);
    assert_eq!(d[0].code.0, "E0200");
    assert_eq!(d[0].message, "type mismatch in function `f`: expected `Bool`, found `Int`");
}

#[test]
fn matches_on_builtin_values_in_function_bodies() {
    assert!(check("fn f(n: Int) -> Int { match n { 0 -> 1, m -> m * 2 } }").is_empty());
    let d = check("fn g(n: Int) -> Int { match n { \"a\" -> 1, _ -> 2 } }");
    assert_eq!(d.len(), 1);
    assert_eq!(d[0].code.0, "E0200");
    assert_eq!(d[0].message, "pattern type `String` does not match scrutinee type `Int`");
    let d = check("fn h(n: Int) -> Int { match n { 0 -> 1, _ -> true } }");
    assert!(d.iter().any(|d| d.code.0 == "E0200" && d.message == "match arms have incompatible types: `Int` and `Bool`"));
}

#[test]
fn annotated_lets_of_builtin_types() {
    let d = check("let x: Int = \"a\";\nlet y: Bool = true;\nfn f(n: Int) -> Int { n + 1 }");
    assert_eq!(d.len(), 1);
    assert_eq!(d[0].code.0, "E0200");
    assert_eq!(d[0].message, "type mismatch: expected `Int`, found `String`");
}
