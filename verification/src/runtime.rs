//! Pieces of the evaluator that do not depend on its values: the names of
//! the builtin functions and runtime errors.
use vstd::prelude::*;
use crate::diagnostics::{Diagnostic, Severity, Span};
use crate::text::eq_lit;

verus! {

/// The names of the functions every LM program can call without a
/// definition.
pub open spec fn builtin_names() -> Seq<Seq<char>> {
    seq!["print"@, "read_line"@, "int_to_string"@, "float_to_string"@, "string_to_int"@, "to_string"@,
        "to_float"@, "to_int"@, "str_len"@, "char_at"@, "char_code"@, "from_char_code"@,
        "len"@, "list_get"@, "list_push"@, "list_map"@]
}

/// Check if a name is a built-in function.
pub fn is_builtin(name: &str) -> (r: bool)
    ensures
        r == builtin_names().contains(name@),
{
    let names: [&str; 16] = ["print", "read_line", "int_to_string", "float_to_string", "string_to_int", "to_string",
        "to_float", "to_int", "str_len", "char_at", "char_code", "from_char_code",
        "len", "list_get", "list_push", "list_map"];
    let ghost all = builtin_names();
    proof {
        assert(names@.map_values(|s: &str| s@) =~= all);
    }
    let mut i: usize = 0;
    while i < 16
        invariant
            i <= 16,
            all == builtin_names(),
            names@.map_values(|s: &str| s@) == all,
            forall|k: int| 0 <= k < i ==> all[k] != name@,
        decreases 16 - i,
    {
        let n = names[i];
        assert(all[i as int] == n@);
        if eq_str(n, name) {
            return true;
        }
        i = i + 1;
    }
    false
}

/// Whether two strings hold the same characters.
fn eq_str(a: &str, b: &str) -> (r: bool)
    ensures
        r == (a@ == b@),
{
    let s = crate::text::owned(a);
    eq_lit(&s, b)
}

/// Runtime error produced during evaluation.
#[derive(Debug, Clone)]
pub struct RuntimeError {
    /// The diagnostic describing the error.
    pub diagnostic: Diagnostic,
}

impl RuntimeError {
    /// Create a new runtime error with code, message, and source span.
    pub fn new(code: &str, message: &str, span: Span) -> (r: RuntimeError)
        ensures
            r.diagnostic.fresh(code@, Severity::Error, message@, span),
    {
        RuntimeError { diagnostic: Diagnostic::error(code, message, span) }
    }
}

} // verus!
