//! Abstract syntax tree of LM programs. Every node carries a [`Span`].
use vstd::prelude::*;
use crate::diagnostics::Span;

verus! {

/// A complete LM source file: a sequence of top-level declarations.
#[derive(Debug)]
pub struct Program {
    /// The top-level declarations in source order.
    pub decls: Vec<Decl>,
    /// Span covering the entire file.
    pub span: Span,
}

/// A top-level declaration.
#[derive(Debug)]
pub struct Decl {
    /// The kind of declaration.
    pub kind: DeclKind,
    /// Source span covering the entire declaration.
    pub span: Span,
}

/// The different kinds of top-level declarations.
#[derive(Debug)]
pub enum DeclKind {
    /// A function definition: `fn name(params) -> RetType { body }` or `io fn ...`.
    FnDef {
        /// Function name.
        name: String,
        /// Effect annotation: `pure` (default) or `io`.
        effect: Effect,
        /// Parameter list with optional type annotations.
        params: Vec<Param>,
        /// Optional return type annotation.
        return_type: Option<TypeAnnotation>,
        /// Function body expression.
        body: Expr,
    },
    /// An algebraic data type definition: `type Name = | Variant1(...) | Variant2(...)`.
    TypeDef {
        /// Type name.
        name: String,
        /// Type parameters (e.g., `T` in `type Option<T>`).
        type_params: Vec<String>,
        /// Variant definitions.
        variants: Vec<Variant>,
    },
    /// A top-level let binding: `let name = expr;`.
    LetDef {
        /// Binding name.
        name: String,
        /// Optional type annotation.
        type_annotation: Option<TypeAnnotation>,
        /// Value expression.
        value: Expr,
    },
}

/// Function effect annotation.
#[derive(Debug, Clone, Copy, PartialEq, Eq, Structural)]
pub enum Effect {
    /// Pure function (default).
    Pure,
    /// IO-performing function.
    Io,
}

/// A function parameter.
#[derive(Debug)]
pub struct Param {
    /// Parameter name.
    pub name: String,
    /// Optional type annotation.
    pub type_annotation: Option<TypeAnnotation>,
    /// Source span.
    pub span: Span,
}

/// A variant in a type definition.
#[derive(Debug)]
pub struct Variant {
    /// Variant name.
    pub name: String,
    /// Field types.
    pub fields: Vec<TypeAnnotation>,
    /// Source span.
    pub span: Span,
}

/// An expression node.
#[derive(Debug)]
pub struct Expr {
    /// The kind of expression.
    pub kind: ExprKind,
    /// Source span.
    pub span: Span,
}

/// The different kinds of expressions.
#[derive(Debug)]
pub enum ExprKind {
    /// A literal value.
    Literal {
        /// The literal value.
        value: LitValue,
    },
    /// A variable or name reference.
    Ident {
        /// The identifier name.
        name: String,
    },
    /// A binary operation: `lhs op rhs`.
    BinaryOp {
        /// The operator.
        op: BinOp,
        /// Left-hand operand.
        lhs: Box<Expr>,
        /// Right-hand operand.
        rhs: Box<Expr>,
    },
    /// A unary operation: `op expr`.
    UnaryOp {
        /// The operator.
        op: UnOp,
        /// The operand.
        operand: Box<Expr>,
    },
    /// A function call: `callee(args)`.
    FnCall {
        /// The expression being called.
        callee: Box<Expr>,
        /// The argument expressions.
        args: Vec<Expr>,
    },
    /// A let expression: `let x = value; body`.
    LetExpr {
        /// Binding name.
        name: String,
        /// Optional type annotation.
        type_annotation: Option<TypeAnnotation>,
        /// Value expression.
        value: Box<Expr>,
        /// Body expression (the value of the whole let expression).
        body: Box<Expr>,
    },
    /// An if-else expression: `if cond { then } else { else_ }`.
    IfElse {
        /// Condition expression.
        condition: Box<Expr>,
        /// Then branch.
        then_branch: Box<Expr>,
        /// Else branch.
        else_branch: Box<Expr>,
    },
    /// A match expression: `match scrutinee { arms }`.
    Match {
        /// The expression being matched.
        scrutinee: Box<Expr>,
        /// The match arms.
        arms: Vec<MatchArm>,
    },
    /// A block expression: `{ expr1; expr2; ... exprN }`.
    Block {
        /// The expressions in the block, where the last is the value.
        exprs: Vec<Expr>,
    },
    /// A list literal: `[1, 2, 3]` or `[]`.
    ListLiteral {
        /// The elements of the list.
        elements: Vec<Expr>,
    },
    /// Constructing an ADT variant: `Circle(5.0)`, `None`, `Ok(42)`.
    VariantConstruct {
        /// The variant name.
        name: String,
        /// Arguments (empty for unit variants like `None`).
        args: Vec<Expr>,
    },
    /// A parse error placeholder so parsing can continue past errors.
    Error,
}

/// Literal values. A float literal is kept as its source text (with a
/// leading `-` for a negated pattern); its numeric value is read from that
/// text where it is needed.
#[derive(Debug)]
pub enum LitValue {
    /// Integer literal.
    Int(i64),
    /// Floating-point literal, by its text.
    Float(String),
    /// String literal (the content between quotes, with escapes processed).
    String(String),
    /// Boolean literal.
    Bool(bool),
    /// The unit literal `()`.
    Unit,
}

/// Binary operators.
#[derive(Debug, Clone, Copy, PartialEq, Eq, Structural)]
pub enum BinOp {
    /// `+`
    Add,
    /// `-`
    Sub,
    /// `*`
    Mul,
    /// `/`
    Div,
    /// `%`
    Mod,
    /// `++` (string concatenation)
    Concat,
    /// `==`
    Eq,
    /// `!=`
    Ne,
    /// `<`
    Lt,
    /// `<=`
    Le,
    /// `>`
    Gt,
    /// `>=`
    Ge,
    /// `&&`
    And,
    /// `||`
    Or,
}

/// Unary operators.
#[derive(Debug, Clone, Copy, PartialEq, Eq, Structural)]
pub enum UnOp {
    /// `!` (logical not)
    Not,
    /// `-` (numeric negation)
    Neg,
}

/// A match arm: `pattern -> expression`.
#[derive(Debug)]
pub struct MatchArm {
    /// The pattern.
    pub pattern: Pattern,
    /// The body expression.
    pub body: Expr,
    /// Source span.
    pub span: Span,
}

/// A pattern in a match arm.
#[derive(Debug)]
pub struct Pattern {
    /// The kind of pattern.
    pub kind: PatternKind,
    /// Source span.
    pub span: Span,
}

/// The different kinds of patterns.
#[derive(Debug)]
pub enum PatternKind {
    /// Match against a literal value.
    Literal {
        /// The literal value.
        value: LitValue,
    },
    /// Bind to a variable name.
    Ident {
        /// The variable name.
        name: String,
    },
    /// Match a variant with sub-patterns: `Circle(r)`, `Ok(value)`.
    Variant {
        /// The variant name.
        name: String,
        /// Sub-patterns for the variant fields.
        fields: Vec<Pattern>,
    },
    /// Wildcard pattern: `_`.
    Wildcard,
}

/// A type annotation.
#[derive(Debug)]
pub struct TypeAnnotation {
    /// The kind of type.
    pub kind: TypeKind,
    /// Source span.
    pub span: Span,
}

/// The different kinds of type annotations.
#[derive(Debug)]
pub enum TypeKind {
    /// A simple named type: `Int`, `Float`, `Bool`, `String`, `Unit`.
    Name {
        /// The type name.
        name: String,
    },
    /// A parameterized type: `Option<Int>`, `Result<Int, String>`.
    App {
        /// The base type name.
        name: String,
        /// Type arguments.
        args: Vec<TypeAnnotation>,
    },
    /// A function type: `(Int, Int) -> Int`.
    Fn {
        /// Parameter types.
        params: Vec<TypeAnnotation>,
        /// Return type.
        ret: Box<TypeAnnotation>,
    },
}

/// Whether `s` is `e` or one of the expressions inside it: the callee and
/// the arguments of a call, the operands of an operator, the value and the
/// body of a `let`, the condition and both branches of an `if`, the
/// scrutinee and the arm bodies of a `match`, the expressions of a block,
/// the arguments of a variant construction and the elements of a list.
pub open spec fn occurs(s: Expr, e: Expr) -> bool
    decreases e, 0nat,
{
    s == e || match e.kind {
        ExprKind::FnCall { callee, args } => occurs(s, *callee) || occurs_in_list(s, args@),
        ExprKind::BinaryOp { lhs, rhs, .. } => occurs(s, *lhs) || occurs(s, *rhs),
        ExprKind::UnaryOp { operand, .. } => occurs(s, *operand),
        ExprKind::LetExpr { value, body, .. } => occurs(s, *value) || occurs(s, *body),
        ExprKind::IfElse { condition, then_branch, else_branch } =>
            occurs(s, *condition) || occurs(s, *then_branch) || occurs(s, *else_branch),
        ExprKind::Match { scrutinee, arms } => occurs(s, *scrutinee) || occurs_in_arms(s, arms@),
        ExprKind::Block { exprs } => occurs_in_list(s, exprs@),
        ExprKind::VariantConstruct { args, .. } => occurs_in_list(s, args@),
        ExprKind::ListLiteral { elements } => occurs_in_list(s, elements@),
        _ => false,
    }
}

/// Whether `s` occurs in one of the expressions `es`.
pub open spec fn occurs_in_list(s: Expr, es: Seq<Expr>) -> bool
    decreases es, 1nat,
{
    es.len() > 0 && (occurs(s, es[0]) || occurs_in_list(s, es.drop_first()))
}

/// Whether `s` occurs in the body of one of the arms `arms`.
pub open spec fn occurs_in_arms(s: Expr, arms: Seq<MatchArm>) -> bool
    decreases arms, 1nat,
{
    arms.len() > 0 && (occurs(s, arms[0].body) || occurs_in_arms(s, arms.drop_first()))
}

/// An element of either part of a concatenation is an element of it.
pub proof fn lemma_contains_concat<A>(a: Seq<A>, b: Seq<A>, x: A)
    ensures
        a.contains(x) ==> (a + b).contains(x),
        b.contains(x) ==> (a + b).contains(x),
{
    if a.contains(x) {
        let k = choose|k: int| 0 <= k < a.len() && a[k] == x;
        assert((a + b)[k] == x);
    }
    if b.contains(x) {
        let k = choose|k: int| 0 <= k < b.len() && b[k] == x;
        assert((a + b)[a.len() + k] == x);
    }
}

/// An element of a concatenation is an element of one of its parts.
pub proof fn lemma_concat_contains_part<A>(a: Seq<A>, b: Seq<A>, x: A)
    requires
        (a + b).contains(x),
    ensures
        a.contains(x) || b.contains(x),
{
    let k = choose|k: int| 0 <= k < (a + b).len() && (a + b)[k] == x;
    if k < a.len() {
        assert(a[k] == x);
    } else {
        assert(b[k - a.len()] == x);
    }
}

} // verus!
