use vstd::prelude::*;

verus! {

// The parts of a script's syntax tree that deciding side effects reads. Each node carries,
// as plain values, the facts that the scope analysis and the scanner work out for it
// (whether a name is bound, what primitive type an expression is known to have, ...).
// TypeScript and JSX nodes are not here: they are transpiled away before scanning.

/// What is known of the primitive type an expression evaluates to.
#[derive(Clone, Copy, Debug, PartialEq, Eq, Structural)]
pub enum PrimitiveType {
    Unknown,
    Mixed,
    Null,
    Undefined,
    Boolean,
    Number,
    String,
    BigInt,
}

/// A reference to a name.
#[derive(Debug)]
pub struct IdentRef {
    pub name: String,
    /// No declaration in scope binds the name: it is a global.
    pub unresolved: bool,
    /// The name is a known global whose read has no side effect.
    pub is_known_global: bool,
}

/// A member expression read as a static chain of names from an identifier, such as
/// `Object.prototype.hasOwnProperty`.
#[derive(Debug)]
pub struct MemberChain {
    pub names: Vec<String>,
    /// The identifier at the root is not bound by any declaration.
    pub root_unresolved: bool,
    /// The chain is a known global member access whose read has no side effect.
    pub known_free: bool,
}

/// A property key.
#[derive(Debug)]
pub enum PropertyKey {
    /// A static or private name.
    Name,
    /// An expression key; `is_primitive_literal` when it is a literal of a primitive value.
    Expression { expr: Box<Expr>, is_primitive_literal: bool },
}

/// A property of an object literal.
#[derive(Debug)]
pub enum ObjectProp {
    Property { key: PropertyKey, computed: bool, value: Expr },
    /// `...expr`
    Spread,
}

#[derive(Clone, Copy, Debug, PartialEq, Eq, Structural)]
pub enum UnaryOp {
    Typeof,
    Void,
    /// Any other unary operator.
    Other,
}

#[derive(Clone, Copy, Debug, PartialEq, Eq, Structural)]
pub enum LogicalOp {
    Or,
    And,
    Coalesce,
}

#[derive(Clone, Copy, Debug, PartialEq, Eq, Structural)]
pub enum BinaryOp {
    /// `===` or `!==`
    StrictEquality,
    /// `==` or `!=`
    LooseEquality,
    /// `<`, `>`, `<=` or `>=`
    Relational,
    /// Any other binary operator.
    Other,
}

/// An expression embedded in a template literal, with its known primitive type.
#[derive(Debug)]
pub struct TemplatePart {
    pub expr: Expr,
    pub primitive: PrimitiveType,
}

/// The left side of an assignment.
#[derive(Debug)]
pub enum AssignTarget {
    /// A name or a member expression.
    Simple,
    ArrayPattern { has_elements: bool, has_rest: bool },
    ObjectPattern { has_properties: bool, has_rest: bool },
}

/// What an optional chain `a?.b` ends in.
#[derive(Debug)]
pub enum ChainElement {
    Call,
    NonNull(Box<Expr>),
    Member(Option<MemberChain>),
}

/// An element of an array literal.
#[derive(Debug)]
pub enum ArrayElem {
    /// `...expr`
    Spread(Box<Expr>),
    /// A hole, as in `[a, , b]`.
    Hole,
    Item(Expr),
}

/// An argument of a call or `new`.
#[derive(Debug)]
pub enum Argument {
    Spread,
    Item(Expr),
}

/// An expression.
#[derive(Debug)]
pub enum Expr {
    /// A boolean, number, bigint, regular expression or string literal.
    Literal,
    Null,
    /// A function or arrow function expression.
    Function,
    /// `import.meta` or `new.target`
    MetaProperty,
    This,
    Object(Vec<ObjectProp>),
    Unary { op: UnaryOp, argument: Box<Expr> },
    /// A member expression, with its static chain when it has one.
    Member(Option<MemberChain>),
    Class(Box<Class>),
    Identifier(IdentRef),
    Template(Vec<TemplatePart>),
    /// `right_free` says whether `right` is an unbound name that the test on `left`
    /// guards (so reading it cannot throw), when that can be told.
    Logical { op: LogicalOp, left: Box<Expr>, right: Box<Expr>, right_free: Option<bool> },
    Paren(Box<Expr>),
    Sequence(Vec<Expr>),
    /// `consequent_free` and `alternate_free` say, as for a logical expression, whether
    /// each branch is an unbound name guarded by `test`.
    Conditional {
        test: Box<Expr>,
        consequent: Box<Expr>,
        alternate: Box<Expr>,
        consequent_free: Option<bool>,
        alternate_free: Option<bool>,
    },
    /// `left_type` and `right_type` are the operands' known primitive types;
    /// `loose_ok` holds when `==`/`!=` could be written `===`/`!==` without change.
    Binary {
        op: BinaryOp,
        left: Box<Expr>,
        right: Box<Expr>,
        left_type: PrimitiveType,
        right_type: PrimitiveType,
        loose_ok: bool,
    },
    /// `#x in right`
    PrivateIn(Box<Expr>),
    Assignment { target: AssignTarget, right: Box<Expr> },
    Chain(ChainElement),
    /// `super`, `await`, `import()`, a tagged template, `++`/`--`, `yield`, or an engine
    /// intrinsic call.
    Effectful,
    Array(Vec<ArrayElem>),
    /// `maybe_free_constructor`: the callee is a global constructor that has no side
    /// effect for the right arguments.
    New { maybe_free_constructor: bool, args: Vec<Argument> },
    Call,
}

/// A class body element.
#[derive(Debug)]
pub enum ClassElement {
    StaticBlock(Vec<Stmt>),
    /// `params_decorated` says for each parameter whether it has decorators.
    Method { has_decorators: bool, key: PropertyKey, computed: bool, params_decorated: Vec<bool> },
    Property { has_decorators: bool, key: PropertyKey, computed: bool, is_static: bool, value: Option<Expr> },
    Accessor { key: PropertyKey, value: Option<Expr> },
}

#[derive(Debug)]
pub struct Class {
    pub has_decorators: bool,
    pub body: Vec<ClassElement>,
}

#[derive(Clone, Copy, Debug, PartialEq, Eq, Structural)]
pub enum VarKind {
    Var,
    Let,
    Const,
    Using,
    AwaitUsing,
}

/// An element of an array binding pattern.
#[derive(Clone, Copy, Debug, PartialEq, Eq, Structural)]
pub enum ArrayBinding {
    Hole,
    Identifier,
    /// A nested pattern or a default value.
    Other,
}

/// What a declarator binds.
#[derive(Debug)]
pub enum BindingPattern {
    Identifier,
    Object,
    Array(Vec<ArrayBinding>),
    /// A pattern with a default value.
    Assignment,
}

#[derive(Debug)]
pub struct Declarator {
    pub id: BindingPattern,
    pub init: Option<Expr>,
}

#[derive(Debug)]
pub struct VarDecl {
    pub kind: VarKind,
    pub declarations: Vec<Declarator>,
}

#[derive(Debug)]
pub enum Decl {
    Variable(VarDecl),
    Function,
    Class(Class),
}

/// What `export default` exports.
#[derive(Debug)]
pub enum ExportDefault {
    Expression(Expr),
    Function,
    Class(Class),
}

#[derive(Debug)]
pub struct SwitchCase {
    pub test: Option<Expr>,
    pub consequent: Vec<Stmt>,
}

/// A statement.
#[derive(Debug)]
pub enum Stmt {
    Declaration(Decl),
    Expression(Expr),
    /// `import ...` or `export * from ...`
    ImportOrExportAll,
    ExportDefault(ExportDefault),
    ExportNamed { has_source: bool, declaration: Option<Decl> },
    Block(Vec<Stmt>),
    DoWhile { body: Box<Stmt>, test: Expr },
    While { test: Expr, body: Box<Stmt> },
    If { test: Expr, consequent: Box<Stmt>, alternate: Option<Box<Stmt>> },
    Return(Option<Expr>),
    Labeled(Box<Stmt>),
    Try { block: Vec<Stmt>, handler: Option<Vec<Stmt>>, finalizer: Option<Vec<Stmt>> },
    Switch { discriminant: Expr, cases: Vec<SwitchCase> },
    /// `;`, `continue` or `break`
    Empty,
    /// `debugger`, `for`, `for in`, `for of`, `throw` or `with`
    Effectful,
}

} // verus!
