use minipack::js_ast::{
    Argument, ArrayBinding, ArrayElem, AssignTarget, BinaryOp, BindingPattern, ChainElement, Class, ClassElement, Decl,
    Declarator, ExportDefault, Expr, IdentRef, LogicalOp, MemberChain, ObjectProp, PrimitiveType, PropertyKey, Stmt,
    SwitchCase, TemplatePart, UnaryOp, VarDecl, VarKind,
};
use minipack::side_effect_detector::{detect_side_effect_of_class, detect_side_effect_of_expr, detect_side_effect_of_stmt};

fn ident(name: &str, unresolved: bool, is_known_global: bool) -> Expr {
    Expr::Identifier(IdentRef { name: name.to_string(), unresolved, is_known_global })
}

fn chain(names: &[&str], root_unresolved: bool, known_free: bool) -> Option<MemberChain> {
    Some(MemberChain { names: names.iter().map(|n| n.to_string()).collect(), root_unresolved, known_free })
}

fn b(e: Expr) -> Box<Expr> {
    Box::new(e)
}

fn var(kind: VarKind, id: BindingPattern, init: Option<Expr>) -> Stmt {
    Stmt::Declaration(Decl::Variable(VarDecl { kind, declarations: vec![Declarator { id, init }] }))
}

#[test]
fn literals_functions_and_known_globals_are_free() {
    assert!(!detect_side_effect_of_expr(&Expr::Literal));
    assert!(!detect_side_effect_of_expr(&Expr::Function));
    assert!(!detect_side_effect_of_expr(&ident("Object", true, true)));
    assert!(!detect_side_effect_of_expr(&ident("local", false, false)));
    assert!(detect_side_effect_of_expr(&ident("maybeMissing", true, false)));
    assert!(detect_side_effect_of_expr(&Expr::Call));
    assert!(detect_side_effect_of_expr(&Expr::Effectful));
}

#[test]
fn typeof_of_a_name_is_free_but_void_is_not() {
    let t = Expr::Unary { op: UnaryOp::Typeof, argument: b(ident("x", true, false)) };
    assert!(!detect_side_effect_of_expr(&t));
    let v = Expr::Unary { op: UnaryOp::Void, argument: b(ident("x", true, false)) };
    assert!(detect_side_effect_of_expr(&v));
}

#[test]
fn member_reads_are_free_only_for_known_global_chains() {
    assert!(!detect_side_effect_of_expr(&Expr::Member(chain(&["Object", "keys"], true, true))));
    assert!(detect_side_effect_of_expr(&Expr::Member(chain(&["Object", "keys"], false, true))));
    assert!(detect_side_effect_of_expr(&Expr::Member(chain(&["a", "b", "c", "d"], true, true))));
    assert!(detect_side_effect_of_expr(&Expr::Member(None)));
    assert!(detect_side_effect_of_expr(&Expr::Chain(ChainElement::Call)));
}

#[test]
fn computed_keys_other_than_symbol_iterator_count() {
    let key = |e: Expr, lit: bool| PropertyKey::Expression { expr: b(e), is_primitive_literal: lit };
    let obj = |k: PropertyKey, computed: bool| {
        Expr::Object(vec![ObjectProp::Property { key: k, computed, value: Expr::Literal }])
    };
    assert!(!detect_side_effect_of_expr(&obj(key(Expr::Member(chain(&["Symbol", "iterator"], true, false)), false), true)));
    assert!(detect_side_effect_of_expr(&obj(key(Expr::Member(chain(&["Symbol", "other"], true, false)), false), true)));
    assert!(!detect_side_effect_of_expr(&obj(key(Expr::Literal, true), true)));
    assert!(detect_side_effect_of_expr(&obj(key(ident("k", true, false), false), true)));
    assert!(!detect_side_effect_of_expr(&obj(key(ident("k", true, false), false), false)));
    assert!(detect_side_effect_of_expr(&Expr::Object(vec![ObjectProp::Spread])));
}

#[test]
fn operators_follow_their_operands_and_types() {
    let lt = |l: PrimitiveType, r: PrimitiveType| Expr::Binary {
        op: BinaryOp::Relational,
        left: b(Expr::Literal),
        right: b(Expr::Literal),
        left_type: l,
        right_type: r,
        loose_ok: false,
    };
    assert!(!detect_side_effect_of_expr(&lt(PrimitiveType::Number, PrimitiveType::Number)));
    assert!(detect_side_effect_of_expr(&lt(PrimitiveType::Number, PrimitiveType::String)));
    assert!(detect_side_effect_of_expr(&lt(PrimitiveType::Boolean, PrimitiveType::Boolean)));
    let eq = |loose_ok: bool| Expr::Binary {
        op: BinaryOp::LooseEquality,
        left: b(Expr::Literal),
        right: b(Expr::Null),
        left_type: PrimitiveType::Unknown,
        right_type: PrimitiveType::Null,
        loose_ok,
    };
    assert!(!detect_side_effect_of_expr(&eq(true)));
    assert!(detect_side_effect_of_expr(&eq(false)));
    let guarded = |op: LogicalOp, free: Option<bool>| Expr::Logical {
        op,
        left: b(Expr::Literal),
        right: b(ident("g", true, false)),
        right_free: free,
    };
    assert!(!detect_side_effect_of_expr(&guarded(LogicalOp::And, Some(true))));
    assert!(detect_side_effect_of_expr(&guarded(LogicalOp::And, None)));
    assert!(detect_side_effect_of_expr(&guarded(LogicalOp::Coalesce, Some(true))));
    let tpl = |p: PrimitiveType| Expr::Template(vec![TemplatePart { expr: Expr::Literal, primitive: p }]);
    assert!(!detect_side_effect_of_expr(&tpl(PrimitiveType::String)));
    assert!(detect_side_effect_of_expr(&tpl(PrimitiveType::Unknown)));
}

#[test]
fn arrays_spreads_assignments_and_new() {
    let inline = Expr::Array(vec![ArrayElem::Spread(b(Expr::Array(vec![ArrayElem::Item(Expr::Literal), ArrayElem::Hole])))]);
    assert!(!detect_side_effect_of_expr(&inline));
    assert!(detect_side_effect_of_expr(&Expr::Array(vec![ArrayElem::Spread(b(ident("xs", false, false)))])));
    let assign = |t: AssignTarget| Expr::Assignment { target: t, right: b(Expr::Literal) };
    assert!(!detect_side_effect_of_expr(&assign(AssignTarget::ArrayPattern { has_elements: false, has_rest: false })));
    assert!(detect_side_effect_of_expr(&assign(AssignTarget::ObjectPattern { has_properties: true, has_rest: false })));
    assert!(detect_side_effect_of_expr(&assign(AssignTarget::Simple)));
    let new = |free: bool, args: Vec<Argument>| Expr::New { maybe_free_constructor: free, args };
    assert!(!detect_side_effect_of_expr(&new(true, vec![Argument::Item(Expr::Literal)])));
    assert!(detect_side_effect_of_expr(&new(true, vec![Argument::Spread])));
    assert!(detect_side_effect_of_expr(&new(false, vec![])));
}

#[test]
fn classes_with_decorators_static_code_or_computed_keys_count() {
    let plain = Class { has_decorators: false, body: vec![ClassElement::Method {
        has_decorators: false,
        key: PropertyKey::Name,
        computed: false,
        params_decorated: vec![false],
    }] };
    assert!(!detect_side_effect_of_class(&plain));
    let decorated_param = Class { has_decorators: false, body: vec![ClassElement::Method {
        has_decorators: false,
        key: PropertyKey::Name,
        computed: false,
        params_decorated: vec![false, true],
    }] };
    assert!(detect_side_effect_of_class(&decorated_param));
    let static_block = Class { has_decorators: false, body: vec![ClassElement::StaticBlock(vec![Stmt::Expression(Expr::Call)])] };
    assert!(detect_side_effect_of_class(&static_block));
    let field = |is_static: bool| Class { has_decorators: false, body: vec![ClassElement::Property {
        has_decorators: false,
        key: PropertyKey::Name,
        computed: false,
        is_static,
        value: Some(Expr::Call),
    }] };
    assert!(detect_side_effect_of_class(&field(true)));
    assert!(!detect_side_effect_of_class(&field(false)));
    assert!(detect_side_effect_of_class(&Class { has_decorators: true, body: vec![] }));
}

#[test]
fn declarations_destructuring_and_using() {
    assert!(!detect_side_effect_of_stmt(&var(VarKind::Const, BindingPattern::Identifier, Some(Expr::Literal))));
    assert!(detect_side_effect_of_stmt(&var(VarKind::Let, BindingPattern::Object, Some(Expr::Literal))));
    let arr = |elems: Vec<ArrayBinding>| BindingPattern::Array(elems);
    assert!(!detect_side_effect_of_stmt(&var(VarKind::Var, arr(vec![ArrayBinding::Identifier, ArrayBinding::Hole]), None)));
    assert!(detect_side_effect_of_stmt(&var(VarKind::Var, arr(vec![ArrayBinding::Identifier, ArrayBinding::Other]), None)));
    assert!(!detect_side_effect_of_stmt(&var(VarKind::Using, BindingPattern::Identifier, Some(Expr::Null))));
    assert!(!detect_side_effect_of_stmt(&var(VarKind::Using, BindingPattern::Identifier, Some(ident("undefined", true, true)))));
    assert!(detect_side_effect_of_stmt(&var(VarKind::Using, BindingPattern::Identifier, Some(ident("undefined", false, false)))));
    assert!(detect_side_effect_of_stmt(&var(VarKind::Using, BindingPattern::Identifier, Some(Expr::Literal))));
    assert!(detect_side_effect_of_stmt(&var(VarKind::AwaitUsing, BindingPattern::Identifier, None)));
    assert!(!detect_side_effect_of_stmt(&Stmt::Declaration(Decl::Function)));
}

#[test]
fn statements_combine_their_parts() {
    assert!(!detect_side_effect_of_stmt(&Stmt::ImportOrExportAll));
    assert!(!detect_side_effect_of_stmt(&Stmt::ExportNamed {
        has_source: true,
        declaration: Some(Decl::Class(Class { has_decorators: true, body: vec![] })),
    }));
    assert!(detect_side_effect_of_stmt(&Stmt::ExportNamed {
        has_source: false,
        declaration: Some(Decl::Class(Class { has_decorators: true, body: vec![] })),
    }));
    assert!(!detect_side_effect_of_stmt(&Stmt::ExportDefault(ExportDefault::Function)));
    assert!(detect_side_effect_of_stmt(&Stmt::ExportDefault(ExportDefault::Expression(Expr::Call))));
    let if_stmt = |alt: Option<Box<Stmt>>| Stmt::If { test: Expr::Literal, consequent: Box::new(Stmt::Empty), alternate: alt };
    assert!(!detect_side_effect_of_stmt(&if_stmt(None)));
    assert!(detect_side_effect_of_stmt(&if_stmt(Some(Box::new(Stmt::Effectful)))));
    let try_stmt = Stmt::Try { block: vec![Stmt::Empty], handler: Some(vec![]), finalizer: Some(vec![Stmt::Expression(Expr::Call)]) };
    assert!(detect_side_effect_of_stmt(&try_stmt));
    let switch = |case_body: Vec<Stmt>| Stmt::Switch {
        discriminant: Expr::Literal,
        cases: vec![SwitchCase { test: Some(Expr::Literal), consequent: case_body }],
    };
    assert!(!detect_side_effect_of_stmt(&switch(vec![Stmt::Empty])));
    assert!(detect_side_effect_of_stmt(&switch(vec![Stmt::Return(Some(Expr::Call))])));
    assert!(!detect_side_effect_of_stmt(&Stmt::Labeled(Box::new(Stmt::Block(vec![Stmt::Empty])))));
    assert!(detect_side_effect_of_stmt(&Stmt::While { test: Expr::Literal, body: Box::new(Stmt::Effectful) }));
    assert!(detect_side_effect_of_stmt(&Stmt::DoWhile { body: Box::new(Stmt::Empty), test: ident("x", true, false) }));
}

#[test]
fn sequences_and_parentheses_have_the_side_effects_of_their_parts() {
    let free = || Expr::Literal;
    let unbound = || ident("x", true, false);
    assert!(!detect_side_effect_of_expr(&Expr::Sequence(vec![free(), free()])));
    assert!(detect_side_effect_of_expr(&Expr::Sequence(vec![free(), unbound()])));
    assert!(!detect_side_effect_of_expr(&Expr::Paren(b(free()))));
    assert!(detect_side_effect_of_expr(&Expr::Paren(b(unbound()))));
}
