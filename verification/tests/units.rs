//! The smaller pieces of the front end, exercised on their own: literals,
//! builtins, types and their display, unification and the type environment.

use lm_lang::ast::BinOp;
use lm_lang::diagnostics::{Severity, Span};
use lm_lang::env::TypeEnv;
use lm_lang::infer::binop_symbol;
use lm_lang::literals::{parse_i64, unescape_string};
use lm_lang::namemap::NameMap;
use lm_lang::runtime::{is_builtin, RuntimeError};
use lm_lang::types::{Type, TypeScheme, TypeVarId};
use lm_lang::unify::UnificationTable;

fn sp() -> Span {
    Span::new(0, 3, 7)
}

// ---------------------------------------------------------------
// Literals
// ---------------------------------------------------------------

#[test]
fn integer_literals_parse_like_i64() {
    assert_eq!(parse_i64("0"), Some(0));
    assert_eq!(parse_i64("42"), Some(42));
    assert_eq!(parse_i64("+7"), Some(7));
    assert_eq!(parse_i64("-9223372036854775808"), Some(i64::MIN));
    assert_eq!(parse_i64("9223372036854775807"), Some(i64::MAX));
    assert_eq!(parse_i64("9223372036854775808"), None);
    assert_eq!(parse_i64(""), None);
    assert_eq!(parse_i64("-"), None);
    assert_eq!(parse_i64("12a"), None);
}

#[test]
fn string_literals_lose_quotes_and_escapes() {
    assert_eq!(unescape_string("\"hello\""), "hello");
    assert_eq!(unescape_string("\"a\\nb\\t\\\\\\\"\""), "a\nb\t\\\"");
    assert_eq!(unescape_string("\"\\q\""), "\\q");
    assert_eq!(unescape_string("\"open"), "open");
    assert_eq!(unescape_string("\"end\\"), "end\\");
    assert_eq!(unescape_string("x"), "x");
}

// ---------------------------------------------------------------
// Runtime pieces
// ---------------------------------------------------------------

#[test]
fn builtin_names_are_recognised() {
    for name in ["print", "read_line", "int_to_string", "float_to_string", "string_to_int", "to_string",
        "to_float", "to_int", "str_len", "char_at", "char_code", "from_char_code",
        "len", "list_get", "list_push", "list_map"]
    {
        assert!(is_builtin(name), "{}", name);
    }
    assert!(!is_builtin("printf"));
    assert!(!is_builtin(""));
    assert!(!is_builtin("Print"));
}

#[test]
fn runtime_error_is_an_error_diagnostic() {
    let e = RuntimeError::new("E0500", "division by zero", sp());
    assert_eq!(e.diagnostic.code.0, "E0500");
    assert_eq!(e.diagnostic.severity, Severity::Error);
    assert_eq!(e.diagnostic.message, "division by zero");
    assert_eq!(e.diagnostic.span, sp());
    assert!(e.diagnostic.labels.is_empty());
}

#[test]
fn operator_symbols() {
    assert_eq!(binop_symbol(BinOp::Add), "+");
    assert_eq!(binop_symbol(BinOp::Concat), "++");
    assert_eq!(binop_symbol(BinOp::Le), "<=");
    assert_eq!(binop_symbol(BinOp::Or), "||");
}

// ---------------------------------------------------------------
// Types
// ---------------------------------------------------------------

fn var(n: u32) -> Type {
    Type::Var(TypeVarId(n))
}

#[test]
fn type_display() {
    let f = Type::Fun(vec![Type::Int, Type::String], Box::new(Type::Bool));
    assert_eq!(f.display(), "(Int, String) -> Bool");
    let r = Type::Result(Box::new(Type::List(Box::new(Type::Float))), Box::new(Type::Unit));
    assert_eq!(r.display(), "Result<List<Float>, Unit>");
    assert_eq!(Type::ADT("Shape".to_string(), vec![]).display(), "Shape");
    assert_eq!(Type::ADT("Pair".to_string(), vec![Type::Int, var(3)]).display(), "Pair<Int, t3>");
    assert_eq!(Type::Option(Box::new(var(0))).display(), "Option<t0>");
}

#[test]
fn free_variables_in_order_without_repeats() {
    let t = Type::Fun(vec![var(2), Type::List(Box::new(var(1)))], Box::new(var(2)));
    let vs: Vec<u32> = t.free_vars().iter().map(|v| v.0).collect();
    assert_eq!(vs, vec![2, 1]);
    assert!(Type::Int.free_vars().is_empty());
}

#[test]
fn substitution_replaces_variables() {
    let t = Type::Fun(vec![var(0)], Box::new(Type::Option(Box::new(var(1)))));
    let s = t.substitute(&[(TypeVarId(0), Type::Int), (TypeVarId(1), Type::String)]);
    assert_eq!(s.display(), "(Int) -> Option<String>");
    let unchanged = var(5).substitute(&[(TypeVarId(0), Type::Int)]);
    assert_eq!(unchanged.display(), "t5");
}

// ---------------------------------------------------------------
// Unification
// ---------------------------------------------------------------

#[test]
fn fresh_variables_count_up() {
    let mut table = UnificationTable::new();
    assert_eq!(table.current_var_count(), 0);
    assert_eq!(table.fresh_var().display(), "t0");
    assert_eq!(table.fresh_var().display(), "t1");
    assert_eq!(table.current_var_count(), 2);
}

#[test]
fn unify_binds_variables() {
    let mut table = UnificationTable::new();
    let a = table.fresh_var();
    let b = table.fresh_var();
    assert!(table.unify(&a, &Type::List(Box::new(b.duplicate())), sp()).is_ok());
    assert!(table.unify(&b, &Type::Int, sp()).is_ok());
    assert_eq!(table.deep_resolve(&a).display(), "List<Int>");
    // Resolving twice changes nothing.
    let once = table.deep_resolve(&a);
    assert_eq!(table.deep_resolve(&once).display(), once.display());
    // What was unified stays unified after more bindings.
    let c = table.fresh_var();
    assert!(table.unify(&c, &Type::Bool, sp()).is_ok());
    assert_eq!(table.deep_resolve(&a).display(), table.deep_resolve(&Type::List(Box::new(Type::Int))).display());
}

#[test]
fn unify_reports_mismatches() {
    let mut table = UnificationTable::new();
    let e = table.unify(&Type::Int, &Type::String, sp()).unwrap_err();
    assert_eq!(e.expected.display(), "Int");
    assert_eq!(e.found.display(), "String");
    assert_eq!(e.span, sp());
    assert!(!e.is_infinite);
    let f1 = Type::Fun(vec![Type::Int], Box::new(Type::Int));
    let f2 = Type::Fun(vec![Type::Int, Type::Int], Box::new(Type::Int));
    assert!(table.unify(&f1, &f2, sp()).is_err());
}

#[test]
fn unify_refuses_infinite_types() {
    let mut table = UnificationTable::new();
    let a = table.fresh_var();
    let e = table.unify(&a, &Type::List(Box::new(a.duplicate())), sp()).unwrap_err();
    assert!(e.is_infinite);
}

// ---------------------------------------------------------------
// Environment
// ---------------------------------------------------------------

#[test]
fn environment_scopes() {
    let mut table = UnificationTable::new();
    let mut env = TypeEnv::new(&mut table);
    assert!(env.lookup("print").is_some());
    assert!(env.lookup("x").is_none());
    env.push_scope();
    env.bind("x".to_string(), TypeScheme::mono(Type::Int));
    assert_eq!(env.lookup("x").unwrap().ty.display(), "Int");
    env.push_scope();
    env.bind("x".to_string(), TypeScheme::mono(Type::Bool));
    assert_eq!(env.lookup("x").unwrap().ty.display(), "Bool");
    env.pop_scope();
    assert_eq!(env.lookup("x").unwrap().ty.display(), "Int");
    env.pop_scope();
    assert!(env.lookup("x").is_none());
}

#[test]
fn popping_a_scope_restores_every_lookup() {
    let mut table = UnificationTable::new();
    let mut env = TypeEnv::new(&mut table);
    env.push_scope();
    env.bind("a".to_string(), TypeScheme::mono(Type::Int));
    env.push_scope();
    env.bind("a".to_string(), TypeScheme::mono(Type::String));
    env.bind("print".to_string(), TypeScheme::mono(Type::Bool));
    env.bind("b".to_string(), TypeScheme::mono(Type::Unit));
    env.bind("b".to_string(), TypeScheme::mono(Type::Float));
    assert_eq!(env.lookup("print").unwrap().ty.display(), "Bool");
    env.pop_scope();
    assert_eq!(env.lookup("a").unwrap().ty.display(), "Int");
    assert!(env.lookup("b").is_none());
    assert_eq!(env.lookup("print").unwrap().ty.display(), "(String) -> Unit");
}

#[test]
fn instantiation_uses_fresh_variables() {
    let mut table = UnificationTable::new();
    let env = TypeEnv::new(&mut table);
    let scheme = TypeScheme { vars: vec![TypeVarId(100)], ty: Type::Fun(vec![var(100)], Box::new(var(100))) };
    let before = table.current_var_count();
    let t = env.instantiate(&scheme, &mut table);
    assert_eq!(t.display(), format!("(t{}) -> t{}", before, before));
}

#[test]
fn name_map_keeps_the_last_value() {
    let mut m: NameMap<u32> = NameMap::new();
    assert!(!m.contains_key("a"));
    m.insert("a".to_string(), 1);
    m.insert("b".to_string(), 2);
    m.insert("a".to_string(), 3);
    assert_eq!(m.get("a"), Some(&3));
    assert_eq!(m.get("b"), Some(&2));
    assert_eq!(m.get("c"), None);
    assert_eq!(m.value_list().len(), 2);
}

// ---------------------------------------------------------------
// Checker diagnostics, exactly
// ---------------------------------------------------------------

fn check_all(source: &str) -> Vec<lm_lang::diagnostics::Diagnostic> {
    let (tokens, lex_diags) = lm_lang::lexer::Lexer::new(source, 0).tokenize();
    assert!(lex_diags.is_empty());
    let (program, parse_diags) = lm_lang::parser::Parser::new(tokens).parse();
    assert!(parse_diags.is_empty());
    lm_lang::infer::TypeChecker::new().check(&program)
}

#[test]
fn io_call_from_pure_function_is_reported_at_the_call() {
    let source = "fn helper(x: String) -> Unit { print(x) }";
    let diags = check_all(source);
    assert_eq!(diags.len(), 1);
    let d = &diags[0];
    assert_eq!(d.code.0, "E0300");
    assert_eq!(d.severity, Severity::Error);
    assert_eq!(d.message, "pure function `helper` cannot call io function `print`");
    assert_eq!((d.span.start, d.span.end), (31, 39));
    assert_eq!(d.help.as_deref(), Some("either mark `helper` as `io fn` or remove the call to `print`"));
    assert_eq!(d.labels.len(), 1);
    assert_eq!(d.labels[0].message, "`print` is an io function");
    assert_eq!((d.labels[0].span.start, d.labels[0].span.end), (31, 36));
}

#[test]
fn later_declaration_decides_the_effect() {
    // The second `log` is io, so the pure caller is reported once per call.
    let source = "fn log(s: String) -> Unit { () }\nio fn log(s: String) -> Unit { print(s) }\nfn f() -> Unit { { log(\"a\"); log(\"b\") } }";
    let diags = check_all(source);
    let effect: Vec<&str> = diags.iter().filter(|d| d.code.0 == "E0300").map(|d| d.message.as_str()).collect();
    assert_eq!(effect, vec!["pure function `f` cannot call io function `log`"; 2]);
}

#[test]
fn missing_variants_are_listed() {
    let source = "type Color = Red | Green | Blue\nfn name(c: Color) -> String { match c { Red -> \"r\" } }";
    let diags = check_all(source);
    assert_eq!(diags.len(), 1);
    assert_eq!(diags[0].code.0, "E0400");
    assert_eq!(diags[0].message, "non-exhaustive match: missing pattern(s): Green, Blue");
    assert_eq!(diags[0].help.as_deref(), Some("add arm(s) for: Green, Blue"));
    assert_eq!(diags[0].labels[0].message, "match is not exhaustive");
}

#[test]
fn arm_after_wildcard_is_unreachable() {
    let source = "fn f(n: Int) -> Int { match n { _ -> 0, 1 -> 1 } }";
    let diags = check_all(source);
    assert_eq!(diags.len(), 1);
    assert_eq!(diags[0].code.0, "E0401");
    assert_eq!(diags[0].severity, Severity::Warning);
    assert_eq!(diags[0].message, "unreachable pattern");
    assert_eq!(diags[0].labels[0].message, "this pattern is unreachable");
    assert_eq!(diags[0].help.as_deref(), Some("a previous pattern already matches all values"));
}

#[test]
fn unifying_a_type_with_itself_binds_nothing() {
    let mut table = UnificationTable::new();
    let a = table.fresh_var();
    let t = Type::Fun(vec![a.duplicate(), Type::List(Box::new(a.duplicate()))], Box::new(Type::Option(Box::new(a.duplicate()))));
    assert!(table.unify(&t, &t.duplicate(), sp()).is_ok());
    // `a` is still free: it can be bound to anything afterwards.
    assert_eq!(table.deep_resolve(&a).display(), "t0");
    assert!(table.unify(&a, &Type::Bool, sp()).is_ok());
    assert_eq!(table.deep_resolve(&t).display(), "(Bool, List<Bool>) -> Option<Bool>");
}

#[test]
fn defaults_are_fresh() {
    let bag = lm_lang::diagnostics::DiagnosticBag::default();
    assert!(bag.is_empty());
    let (tokens, _) = lm_lang::lexer::Lexer::new("let x = 1 + 2;", 0).tokenize();
    let (program, _) = lm_lang::parser::Parser::new(tokens).parse();
    let checker: lm_lang::infer::TypeChecker = Default::default();
    assert!(checker.check(&program).is_empty());
}
