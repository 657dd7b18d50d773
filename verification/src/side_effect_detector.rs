use vstd::prelude::*;
use vstd::string::*;

use crate::js_ast::{
    Argument, ArrayBinding, ArrayElem, AssignTarget, BinaryOp, BindingPattern, ChainElement, Class, ClassElement, Decl,
    Declarator, ExportDefault, Expr, IdentRef, LogicalOp, MemberChain, ObjectProp, PrimitiveType, PropertyKey, Stmt,
    SwitchCase, TemplatePart, UnaryOp, VarDecl, VarKind,
};
use crate::strings::str_eq;

verus! {

// Whether evaluating a piece of a script may have an observable effect. The answer errs
// on the side of "yes": `false` promises that dropping the code changes nothing.

/// An optional fact, read as `false` when unknown.
pub open spec fn known_true(f: Option<bool>) -> bool {
    f matches Some(b) && b
}

/// Reading a member expression: free only for a known side-effect-free member chain of two
/// or three names from an unbound (global) root.
pub open spec fn member_effect(chain: Option<MemberChain>) -> bool {
    match chain {
        None => true,
        Some(c) => if !c.root_unresolved {
            true
        } else if c.names.len() == 2 || c.names.len() == 3 {
            !c.known_free
        } else {
            true
        },
    }
}

/// The chain is the global `Symbol.iterator`.
pub open spec fn is_symbol_iterator(c: MemberChain) -> bool {
    &&& c.names.len() == 2
    &&& c.names@[0]@ == "Symbol"@
    &&& c.names@[1]@ == "iterator"@
    &&& c.root_unresolved
}

/// Evaluating a property key: only a computed key can have an effect, and then any key but
/// a primitive literal or the global `Symbol.iterator` may.
pub open spec fn key_effect(key: PropertyKey, computed: bool) -> bool {
    match key {
        PropertyKey::Name => false,
        PropertyKey::Expression { expr, is_primitive_literal } => computed && match *expr {
            Expr::Member(chain) => match chain {
                Some(c) => !is_symbol_iterator(c),
                None => true,
            },
            _ => !is_primitive_literal,
        },
    }
}

/// Destructuring in an assignment has an effect unless the pattern is empty.
pub open spec fn target_effect(t: AssignTarget) -> bool {
    match t {
        AssignTarget::Simple => true,
        AssignTarget::ArrayPattern { has_elements, has_rest } => has_elements || has_rest,
        AssignTarget::ObjectPattern { has_properties, has_rest } => has_properties || has_rest,
    }
}

/// Reading a name: only an unbound name that is not a known global may throw.
pub open spec fn ident_effect(id: IdentRef) -> bool {
    id.unresolved && !id.is_known_global
}

/// Side effects distribute over the forms that only combine their parts: a parenthesized
/// expression has them when its inner one does, a sequence when one of its expressions
/// does, and `??` and `===` when either side does.
pub proof fn lemma_expr_effect_distributes(e: Expr)
    ensures
        e matches Expr::Paren(x) ==> expr_effect(e) == expr_effect(*x),
        e matches Expr::Sequence(v) ==> (expr_effect(e) <==> exists|i: int| 0 <= i < v.len() && expr_effect(#[trigger] v@[i])),
        e matches Expr::Logical { op: LogicalOp::Coalesce, left, right, .. } ==> expr_effect(e) == (expr_effect(*left)
            || expr_effect(*right)),
        e matches Expr::Binary { op: BinaryOp::StrictEquality, left, right, .. } ==> expr_effect(e) == (expr_effect(*left)
            || expr_effect(*right)),
{
    if let Expr::Sequence(v) = e {
        assert(expr_effect(e) == exists|i: int| 0 <= i < v.len() && expr_effect(#[trigger] v@[i]));
    }
}

/// A conditional expression has side effects when its test has them, and when a branch
/// that is not known to be free of side effects has them (that branch may run); it is free
/// of side effects when its test and both branches are.
pub proof fn lemma_conditional_effect(
    test: Expr,
    consequent: Expr,
    alternate: Expr,
    consequent_free: Option<bool>,
    alternate_free: Option<bool>,
)
    ensures
        ({
            let e = Expr::Conditional {
                test: Box::new(test),
                consequent: Box::new(consequent),
                alternate: Box::new(alternate),
                consequent_free,
                alternate_free,
            };
            &&& expr_effect(test) ==> expr_effect(e)
            &&& consequent_free != Some(true) && expr_effect(consequent) ==> expr_effect(e)
            &&& alternate_free != Some(true) && expr_effect(alternate) ==> expr_effect(e)
            &&& !expr_effect(test) && !expr_effect(consequent) && !expr_effect(alternate) ==> !expr_effect(e)
        }),
{
}

/// A call always may have side effects; a `||` or `&&` has them when its left side does,
/// or its right side does and is not known to be free of them, and is free of them when
/// neither side has any; an assignment has them when its right side does.
pub proof fn lemma_operator_effects(op: LogicalOp, left: Expr, right: Expr, right_free: Option<bool>, target: AssignTarget)
    ensures
        expr_effect(Expr::Call),
        ({
            let e = Expr::Logical { op, left: Box::new(left), right: Box::new(right), right_free };
            &&& expr_effect(left) ==> expr_effect(e)
            &&& (op is Coalesce || right_free != Some(true)) && expr_effect(right) ==> expr_effect(e)
            &&& !expr_effect(left) && !expr_effect(right) ==> !expr_effect(e)
        }),
        expr_effect(right) ==> expr_effect(Expr::Assignment { target, right: Box::new(right) }),
{
}

pub open spec fn expr_effect(e: Expr) -> bool
    decreases e,
{
    match e {
        Expr::Literal | Expr::Null | Expr::Function | Expr::MetaProperty | Expr::This => false,
        Expr::Object(props) => exists|i: int| 0 <= i < props.len() && prop_effect(#[trigger] props@[i]),
        Expr::Unary { op, argument } => if op is Typeof && *argument is Identifier {
            false
        } else {
            expr_effect(*argument)
        },
        Expr::Member(chain) => member_effect(chain),
        Expr::Class(c) => class_effect(*c),
        Expr::Identifier(id) => ident_effect(id),
        Expr::Template(parts) => exists|i: int| 0 <= i < parts.len() && template_part_effect(#[trigger] parts@[i]),
        Expr::Logical { op, left, right, right_free } => match op {
            LogicalOp::Coalesce => expr_effect(*left) || expr_effect(*right),
            _ => expr_effect(*left) || (!known_true(right_free) && expr_effect(*right)),
        },
        Expr::Paren(x) => expr_effect(*x),
        Expr::Sequence(v) => exists|i: int| 0 <= i < v.len() && expr_effect(#[trigger] v@[i]),
        Expr::Conditional { test, consequent, alternate, consequent_free, alternate_free } => expr_effect(*test) || (
        !known_true(consequent_free) && expr_effect(*consequent)) || (!known_true(alternate_free) && expr_effect(
            *alternate,
        )),
        Expr::Binary { op, left, right, left_type, right_type, loose_ok } => match op {
            BinaryOp::StrictEquality => expr_effect(*left) || expr_effect(*right),
            BinaryOp::Relational => if left_type is Number || left_type is String || left_type is BigInt {
                right_type != left_type || expr_effect(*left) || expr_effect(*right)
            } else {
                true
            },
            BinaryOp::LooseEquality => !loose_ok || expr_effect(*left) || expr_effect(*right),
            BinaryOp::Other => true,
        },
        Expr::PrivateIn(right) => expr_effect(*right),
        Expr::Assignment { target, right } => target_effect(target) || expr_effect(*right),
        Expr::Chain(ce) => match ce {
            ChainElement::Call => true,
            ChainElement::NonNull(x) => expr_effect(*x),
            ChainElement::Member(chain) => member_effect(chain),
        },
        Expr::Effectful => true,
        Expr::Array(elems) => exists|i: int| 0 <= i < elems.len() && array_elem_effect(#[trigger] elems@[i]),
        Expr::New { maybe_free_constructor, args } => if maybe_free_constructor {
            exists|i: int| 0 <= i < args.len() && arg_effect(#[trigger] args@[i])
        } else {
            true
        },
        Expr::Call => true,
    }
}

pub open spec fn prop_effect(p: ObjectProp) -> bool
    decreases p,
{
    match p {
        ObjectProp::Property { key, computed, value } => key_effect(key, computed) || expr_effect(value),
        ObjectProp::Spread => true,
    }
}

/// A template part has an effect when its type is unknown (it may be converted to a string
/// by user code) or its evaluation has one.
pub open spec fn template_part_effect(p: TemplatePart) -> bool
    decreases p,
{
    p.primitive is Unknown || expr_effect(p.expr)
}

/// A spread of an inline array literal has the effects of its elements; any other spread
/// runs an iterator.
pub open spec fn array_elem_effect(el: ArrayElem) -> bool
    decreases el,
{
    match el {
        ArrayElem::Spread(x) => match *x {
            Expr::Array(inner) => exists|j: int| 0 <= j < inner.len() && array_elem_effect(#[trigger] inner@[j]),
            _ => true,
        },
        ArrayElem::Hole => false,
        ArrayElem::Item(x) => expr_effect(x),
    }
}

pub open spec fn arg_effect(a: Argument) -> bool
    decreases a,
{
    match a {
        Argument::Spread => true,
        Argument::Item(x) => expr_effect(x),
    }
}

pub open spec fn class_effect(c: Class) -> bool
    decreases c,
{
    c.has_decorators || exists|i: int| 0 <= i < c.body.len() && element_effect(#[trigger] c.body@[i])
}

pub open spec fn element_effect(el: ClassElement) -> bool
    decreases el,
{
    match el {
        ClassElement::StaticBlock(stmts) => exists|i: int| 0 <= i < stmts.len() && stmt_effect(#[trigger] stmts@[i]),
        ClassElement::Method { has_decorators, key, computed, params_decorated } => has_decorators || key_effect(key, computed)
            || exists|i: int| 0 <= i < params_decorated.len() && #[trigger] params_decorated@[i],
        ClassElement::Property { has_decorators, key, computed, is_static, value } => has_decorators || key_effect(
            key,
            computed,
        ) || (is_static && (value matches Some(v) && expr_effect(v))),
        ClassElement::Accessor { key, value } => (match key {
            PropertyKey::Name => false,
            PropertyKey::Expression { expr, .. } => expr_effect(*expr),
        }) || (value matches Some(v) && expr_effect(v)),
    }
}

/// A declarator of `var`, `let` or `const`: destructuring an object may run getters; an
/// array pattern of plain names and holes is free (the iterator of an array literal is
/// assumed), any other element is not; then the initializer counts.
pub open spec fn declarator_effect(d: Declarator) -> bool
    decreases d,
{
    let init_effect = d.init matches Some(x) && expr_effect(x);
    match d.id {
        BindingPattern::Object => true,
        BindingPattern::Array(elems) => (exists|k: int| 0 <= k < elems.len() && #[trigger] elems@[k] is Other) || init_effect,
        BindingPattern::Identifier | BindingPattern::Assignment => init_effect,
    }
}

/// A declarator of `using`: its value's disposal runs unless it is `null`, the global
/// `undefined`, or a `void` expression (whose operand still counts).
pub open spec fn using_effect(d: Declarator) -> bool
    decreases d,
{
    match d.init {
        None => false,
        Some(init) => match init {
            Expr::Null => false,
            Expr::Identifier(id) => !(id.name@ == "undefined"@ && id.unresolved),
            Expr::Unary { op, argument } => if op is Void {
                expr_effect(*argument)
            } else {
                true
            },
            _ => true,
        },
    }
}

pub open spec fn var_decl_effect(v: VarDecl) -> bool
    decreases v,
{
    match v.kind {
        VarKind::AwaitUsing => true,
        VarKind::Using => exists|i: int| 0 <= i < v.declarations.len() && using_effect(#[trigger] v.declarations@[i]),
        _ => exists|i: int| 0 <= i < v.declarations.len() && declarator_effect(#[trigger] v.declarations@[i]),
    }
}

pub open spec fn decl_effect(d: Decl) -> bool
    decreases d,
{
    match d {
        Decl::Variable(v) => var_decl_effect(v),
        Decl::Function => false,
        Decl::Class(c) => class_effect(c),
    }
}

pub open spec fn case_effect(c: SwitchCase) -> bool
    decreases c,
{
    (c.test matches Some(t) && expr_effect(t)) || exists|i: int| 0 <= i < c.consequent.len() && stmt_effect(#[trigger] c.consequent@[i])
}

/// Some statement of the list has an effect.
pub open spec fn stmts_effect(v: Vec<Stmt>) -> bool
    decreases v,
{
    exists|i: int| 0 <= i < v.len() && stmt_effect(#[trigger] v@[i])
}

pub open spec fn stmt_effect(s: Stmt) -> bool
    decreases s,
{
    match s {
        Stmt::Declaration(d) => decl_effect(d),
        Stmt::Expression(e) => expr_effect(e),
        Stmt::ImportOrExportAll => false,
        Stmt::ExportDefault(d) => match d {
            ExportDefault::Expression(e) => expr_effect(e),
            ExportDefault::Function => false,
            ExportDefault::Class(c) => class_effect(c),
        },
        Stmt::ExportNamed { has_source, declaration } => if has_source {
            false
        } else {
            declaration matches Some(d) && decl_effect(d)
        },
        Stmt::Block(v) => stmts_effect(v),
        Stmt::DoWhile { body, test } => stmt_effect(*body) || expr_effect(test),
        Stmt::While { test, body } => expr_effect(test) || stmt_effect(*body),
        Stmt::If { test, consequent, alternate } => expr_effect(test) || stmt_effect(*consequent) || (alternate matches Some(a)
            && stmt_effect(*a)),
        Stmt::Return(arg) => arg matches Some(x) && expr_effect(x),
        Stmt::Labeled(b) => stmt_effect(*b),
        Stmt::Try { block, handler, finalizer } => stmts_effect(block) || (handler matches Some(h) && stmts_effect(h)) || (
        finalizer matches Some(f) && stmts_effect(f)),
        Stmt::Switch { discriminant, cases } => expr_effect(discriminant) || exists|i: int|
            0 <= i < cases.len() && case_effect(#[trigger] cases@[i]),
        Stmt::Empty => false,
        Stmt::Effectful => true,
    }
}


fn detect_side_effect_of_member_expr(chain: &Option<MemberChain>) -> (r: bool)
    ensures
        r == member_effect(*chain),
{
    match chain {
        None => true,
        Some(c) => {
            if !c.root_unresolved {
                true
            } else if c.names.len() == 2 || c.names.len() == 3 {
                !c.known_free
            } else {
                true
            }
        },
    }
}

fn detect_side_effect_of_property_key(key: &PropertyKey, computed: bool) -> (r: bool)
    ensures
        r == key_effect(*key, computed),
{
    proof {
        reveal_strlit("Symbol");
        reveal_strlit("iterator");
    }
    match key {
        PropertyKey::Name => false,
        PropertyKey::Expression { expr, is_primitive_literal } => {
            if !computed {
                return false;
            }
            match &**expr {
                Expr::Member(chain) => match chain {
                    Some(c) => !(c.names.len() == 2 && str_eq(c.names[0].as_str(), "Symbol") && str_eq(
                        c.names[1].as_str(),
                        "iterator",
                    ) && c.root_unresolved),
                    None => true,
                },
                _ => !*is_primitive_literal,
            }
        },
    }
}

fn detect_side_effect_of_assignment_target(t: &AssignTarget) -> (r: bool)
    ensures
        r == target_effect(*t),
{
    match t {
        AssignTarget::Simple => true,
        AssignTarget::ArrayPattern { has_elements, has_rest } => *has_elements || *has_rest,
        AssignTarget::ObjectPattern { has_properties, has_rest } => *has_properties || *has_rest,
    }
}

fn detect_side_effect_of_identifier(id: &IdentRef) -> (r: bool)
    ensures
        r == ident_effect(*id),
{
    id.unresolved && !id.is_known_global
}

/// Whether evaluating the expression may have an observable effect.
pub fn detect_side_effect_of_expr(e: &Expr) -> (r: bool)
    ensures
        r == expr_effect(*e),
    decreases e, 0nat,
{
    match e {
        Expr::Literal | Expr::Null | Expr::Function | Expr::MetaProperty | Expr::This => false,
        Expr::Object(props) => any_prop_effect(props),
        Expr::Unary { op, argument } => {
            let is_ident = match &**argument {
                Expr::Identifier(_) => true,
                _ => false,
            };
            if *op == UnaryOp::Typeof && is_ident {
                false
            } else {
                detect_side_effect_of_expr(argument)
            }
        },
        Expr::Member(chain) => detect_side_effect_of_member_expr(chain),
        Expr::Class(c) => detect_side_effect_of_class(c),
        Expr::Identifier(id) => detect_side_effect_of_identifier(id),
        Expr::Template(parts) => any_template_part_effect(parts),
        Expr::Logical { op, left, right, right_free } => {
            match op {
                LogicalOp::Coalesce => detect_side_effect_of_expr(left) || detect_side_effect_of_expr(right),
                _ => {
                    let free = match right_free {
                        Some(b) => *b,
                        None => false,
                    };
                    detect_side_effect_of_expr(left) || (!free && detect_side_effect_of_expr(right))
                },
            }
        },
        Expr::Paren(x) => detect_side_effect_of_expr(x),
        Expr::Sequence(v) => any_expr_effect(v),
        Expr::Conditional { test, consequent, alternate, consequent_free, alternate_free } => {
            let cf = match consequent_free {
                Some(b) => *b,
                None => false,
            };
            let af = match alternate_free {
                Some(b) => *b,
                None => false,
            };
            detect_side_effect_of_expr(test) || (!cf && detect_side_effect_of_expr(consequent)) || (!af
                && detect_side_effect_of_expr(alternate))
        },
        Expr::Binary { op, left, right, left_type, right_type, loose_ok } => {
            match op {
                BinaryOp::StrictEquality => detect_side_effect_of_expr(left) || detect_side_effect_of_expr(right),
                BinaryOp::Relational => {
                    if *left_type == PrimitiveType::Number || *left_type == PrimitiveType::String || *left_type
                        == PrimitiveType::BigInt {
                        *right_type != *left_type || detect_side_effect_of_expr(left) || detect_side_effect_of_expr(right)
                    } else {
                        true
                    }
                },
                BinaryOp::LooseEquality => !*loose_ok || detect_side_effect_of_expr(left) || detect_side_effect_of_expr(
                    right,
                ),
                BinaryOp::Other => true,
            }
        },
        Expr::PrivateIn(right) => detect_side_effect_of_expr(right),
        Expr::Assignment { target, right } => detect_side_effect_of_assignment_target(target) || detect_side_effect_of_expr(
            right,
        ),
        Expr::Chain(ce) => match ce {
            ChainElement::Call => true,
            ChainElement::NonNull(x) => detect_side_effect_of_expr(x),
            ChainElement::Member(chain) => detect_side_effect_of_member_expr(chain),
        },
        Expr::Effectful => true,
        Expr::Array(elems) => detect_side_effect_of_array_expr(elems),
        Expr::New { maybe_free_constructor, args } => {
            if *maybe_free_constructor {
                any_arg_effect(args)
            } else {
                true
            }
        },
        Expr::Call => true,
    }
}

fn any_prop_effect(v: &Vec<ObjectProp>) -> (r: bool)
    ensures
        r == exists|i: int| 0 <= i < v.len() && prop_effect(#[trigger] v@[i]),
    decreases v, 1nat,
{
    let mut i: usize = 0;
    while i < v.len()
        invariant
            i <= v.len(),
            forall|j: int| 0 <= j < i ==> !prop_effect(#[trigger] v@[j]),
        decreases v.len() - i,
    {
        proof {
            assert(decreases_to!(v => v@[i as int]));
        }
        let hit = match &v[i] {
            ObjectProp::Property { key, computed, value } => detect_side_effect_of_property_key(key, *computed)
                || detect_side_effect_of_expr(value),
            ObjectProp::Spread => true,
        };
        if hit {
            assert(prop_effect(v@[i as int]));
            return true;
        }
        i += 1;
    }
    false
}

fn any_template_part_effect(v: &Vec<TemplatePart>) -> (r: bool)
    ensures
        r == exists|i: int| 0 <= i < v.len() && template_part_effect(#[trigger] v@[i]),
    decreases v, 1nat,
{
    let mut i: usize = 0;
    while i < v.len()
        invariant
            i <= v.len(),
            forall|j: int| 0 <= j < i ==> !template_part_effect(#[trigger] v@[j]),
        decreases v.len() - i,
    {
        proof {
            assert(decreases_to!(v => v@[i as int]));
        }
        let p = &v[i];
        if p.primitive == PrimitiveType::Unknown || detect_side_effect_of_expr(&p.expr) {
            assert(template_part_effect(v@[i as int]));
            return true;
        }
        i += 1;
    }
    false
}

fn any_expr_effect(v: &Vec<Expr>) -> (r: bool)
    ensures
        r == exists|i: int| 0 <= i < v.len() && expr_effect(#[trigger] v@[i]),
    decreases v, 1nat,
{
    let mut i: usize = 0;
    while i < v.len()
        invariant
            i <= v.len(),
            forall|j: int| 0 <= j < i ==> !expr_effect(#[trigger] v@[j]),
        decreases v.len() - i,
    {
        proof {
            assert(decreases_to!(v => v@[i as int]));
        }
        if detect_side_effect_of_expr(&v[i]) {
            assert(expr_effect(v@[i as int]));
            return true;
        }
        i += 1;
    }
    false
}

fn detect_side_effect_of_array_expr(v: &Vec<ArrayElem>) -> (r: bool)
    ensures
        r == exists|i: int| 0 <= i < v.len() && array_elem_effect(#[trigger] v@[i]),
    decreases v, 1nat,
{
    let mut i: usize = 0;
    while i < v.len()
        invariant
            i <= v.len(),
            forall|j: int| 0 <= j < i ==> !array_elem_effect(#[trigger] v@[j]),
        decreases v.len() - i,
    {
        proof {
            assert(decreases_to!(v => v@[i as int]));
        }
        if detect_side_effect_of_array_elem(&v[i]) {
            assert(array_elem_effect(v@[i as int]));
            return true;
        }
        i += 1;
    }
    false
}

fn detect_side_effect_of_array_elem(el: &ArrayElem) -> (r: bool)
    ensures
        r == array_elem_effect(*el),
    decreases el, 0nat,
{
    match el {
        ArrayElem::Spread(x) => match &**x {
            Expr::Array(inner) => detect_side_effect_of_array_expr(inner),
            _ => true,
        },
        ArrayElem::Hole => false,
        ArrayElem::Item(x) => detect_side_effect_of_expr(x),
    }
}

fn any_arg_effect(v: &Vec<Argument>) -> (r: bool)
    ensures
        r == exists|i: int| 0 <= i < v.len() && arg_effect(#[trigger] v@[i]),
    decreases v, 1nat,
{
    let mut i: usize = 0;
    while i < v.len()
        invariant
            i <= v.len(),
            forall|j: int| 0 <= j < i ==> !arg_effect(#[trigger] v@[j]),
        decreases v.len() - i,
    {
        proof {
            assert(decreases_to!(v => v@[i as int]));
        }
        let hit = match &v[i] {
            Argument::Spread => true,
            Argument::Item(x) => detect_side_effect_of_expr(x),
        };
        if hit {
            assert(arg_effect(v@[i as int]));
            return true;
        }
        i += 1;
    }
    false
}

/// Whether evaluating the class (its decorators, computed keys, static blocks and static
/// field initializers) may have an observable effect.
pub fn detect_side_effect_of_class(c: &Class) -> (r: bool)
    ensures
        r == class_effect(*c),
    decreases c, 0nat,
{
    if c.has_decorators {
        return true;
    }
    any_element_effect(&c.body)
}

fn any_element_effect(v: &Vec<ClassElement>) -> (r: bool)
    ensures
        r == exists|i: int| 0 <= i < v.len() && element_effect(#[trigger] v@[i]),
    decreases v, 1nat,
{
    let mut i: usize = 0;
    while i < v.len()
        invariant
            i <= v.len(),
            forall|j: int| 0 <= j < i ==> !element_effect(#[trigger] v@[j]),
        decreases v.len() - i,
    {
        proof {
            assert(decreases_to!(v => v@[i as int]));
        }
        if detect_side_effect_of_element(&v[i]) {
            assert(element_effect(v@[i as int]));
            return true;
        }
        i += 1;
    }
    false
}

fn any_true(v: &Vec<bool>) -> (r: bool)
    ensures
        r == exists|i: int| 0 <= i < v.len() && #[trigger] v@[i],
{
    let mut i: usize = 0;
    while i < v.len()
        invariant
            i <= v.len(),
            forall|j: int| 0 <= j < i ==> !#[trigger] v@[j],
        decreases v.len() - i,
    {
        if v[i] {
            return true;
        }
        i += 1;
    }
    false
}

fn detect_side_effect_of_element(el: &ClassElement) -> (r: bool)
    ensures
        r == element_effect(*el),
    decreases el, 0nat,
{
    match el {
        ClassElement::StaticBlock(stmts) => detect_side_effect_of_block(stmts),
        ClassElement::Method { has_decorators, key, computed, params_decorated } => {
            *has_decorators || detect_side_effect_of_property_key(key, *computed) || any_true(params_decorated)
        },
        ClassElement::Property { has_decorators, key, computed, is_static, value } => {
            if *has_decorators || detect_side_effect_of_property_key(key, *computed) {
                return true;
            }
            *is_static && match value {
                Some(v) => detect_side_effect_of_expr(v),
                None => false,
            }
        },
        ClassElement::Accessor { key, value } => {
            let key_hit = match key {
                PropertyKey::Name => false,
                PropertyKey::Expression { expr, .. } => detect_side_effect_of_expr(expr),
            };
            key_hit || match value {
                Some(v) => detect_side_effect_of_expr(v),
                None => false,
            }
        },
    }
}

fn any_other_binding(v: &Vec<ArrayBinding>) -> (r: bool)
    ensures
        r == exists|k: int| 0 <= k < v.len() && #[trigger] v@[k] is Other,
{
    let mut i: usize = 0;
    while i < v.len()
        invariant
            i <= v.len(),
            forall|j: int| 0 <= j < i ==> !(#[trigger] v@[j] is Other),
        decreases v.len() - i,
    {
        if v[i] == ArrayBinding::Other {
            return true;
        }
        i += 1;
    }
    false
}

fn detect_side_effect_of_declarator(d: &Declarator) -> (r: bool)
    ensures
        r == declarator_effect(*d),
    decreases d, 0nat,
{
    let init_effect = match &d.init {
        Some(x) => detect_side_effect_of_expr(x),
        None => false,
    };
    match &d.id {
        BindingPattern::Object => true,
        BindingPattern::Array(elems) => any_other_binding(elems) || init_effect,
        BindingPattern::Identifier | BindingPattern::Assignment => init_effect,
    }
}

fn any_declarator_effect(v: &Vec<Declarator>) -> (r: bool)
    ensures
        r == exists|i: int| 0 <= i < v.len() && declarator_effect(#[trigger] v@[i]),
    decreases v, 1nat,
{
    let mut i: usize = 0;
    while i < v.len()
        invariant
            i <= v.len(),
            forall|j: int| 0 <= j < i ==> !declarator_effect(#[trigger] v@[j]),
        decreases v.len() - i,
    {
        proof {
            assert(decreases_to!(v => v@[i as int]));
        }
        if detect_side_effect_of_declarator(&v[i]) {
            assert(declarator_effect(v@[i as int]));
            return true;
        }
        i += 1;
    }
    false
}

fn detect_side_effect_of_using_declarator(d: &Declarator) -> (r: bool)
    ensures
        r == using_effect(*d),
    decreases d, 0nat,
{
    proof {
        reveal_strlit("undefined");
    }
    match &d.init {
        None => false,
        Some(init) => match init {
            Expr::Null => false,
            Expr::Identifier(id) => !(str_eq(id.name.as_str(), "undefined") && id.unresolved),
            Expr::Unary { op, argument } => {
                if *op == UnaryOp::Void {
                    detect_side_effect_of_expr(argument)
                } else {
                    true
                }
            },
            _ => true,
        },
    }
}

fn detect_side_effect_of_using_declarators(v: &Vec<Declarator>) -> (r: bool)
    ensures
        r == exists|i: int| 0 <= i < v.len() && using_effect(#[trigger] v@[i]),
    decreases v, 1nat,
{
    let mut i: usize = 0;
    while i < v.len()
        invariant
            i <= v.len(),
            forall|j: int| 0 <= j < i ==> !using_effect(#[trigger] v@[j]),
        decreases v.len() - i,
    {
        proof {
            assert(decreases_to!(v => v@[i as int]));
        }
        if detect_side_effect_of_using_declarator(&v[i]) {
            assert(using_effect(v@[i as int]));
            return true;
        }
        i += 1;
    }
    false
}

fn detect_side_effect_of_var_decl(v: &VarDecl) -> (r: bool)
    ensures
        r == var_decl_effect(*v),
    decreases v, 0nat,
{
    match v.kind {
        VarKind::AwaitUsing => true,
        VarKind::Using => detect_side_effect_of_using_declarators(&v.declarations),
        _ => any_declarator_effect(&v.declarations),
    }
}

fn detect_side_effect_of_decl(d: &Decl) -> (r: bool)
    ensures
        r == decl_effect(*d),
    decreases d, 0nat,
{
    match d {
        Decl::Variable(v) => detect_side_effect_of_var_decl(v),
        Decl::Function => false,
        Decl::Class(c) => detect_side_effect_of_class(c),
    }
}

fn detect_side_effect_of_block(v: &Vec<Stmt>) -> (r: bool)
    ensures
        r == stmts_effect(*v),
    decreases v, 1nat,
{
    let mut i: usize = 0;
    while i < v.len()
        invariant
            i <= v.len(),
            forall|j: int| 0 <= j < i ==> !stmt_effect(#[trigger] v@[j]),
        decreases v.len() - i,
    {
        proof {
            assert(decreases_to!(v => v@[i as int]));
        }
        if detect_side_effect_of_stmt(&v[i]) {
            assert(stmt_effect(v@[i as int]));
            return true;
        }
        i += 1;
    }
    false
}

fn detect_side_effect_of_case(c: &SwitchCase) -> (r: bool)
    ensures
        r == case_effect(*c),
    decreases c, 0nat,
{
    let test_hit = match &c.test {
        Some(t) => detect_side_effect_of_expr(t),
        None => false,
    };
    test_hit || detect_side_effect_of_block(&c.consequent)
}

fn any_case_effect(v: &Vec<SwitchCase>) -> (r: bool)
    ensures
        r == exists|i: int| 0 <= i < v.len() && case_effect(#[trigger] v@[i]),
    decreases v, 1nat,
{
    let mut i: usize = 0;
    while i < v.len()
        invariant
            i <= v.len(),
            forall|j: int| 0 <= j < i ==> !case_effect(#[trigger] v@[j]),
        decreases v.len() - i,
    {
        proof {
            assert(decreases_to!(v => v@[i as int]));
        }
        if detect_side_effect_of_case(&v[i]) {
            assert(case_effect(v@[i as int]));
            return true;
        }
        i += 1;
    }
    false
}

/// Whether executing the top-level statement may have an observable effect. `import` and
/// `export ... from` statements count as free here.
pub fn detect_side_effect_of_stmt(s: &Stmt) -> (r: bool)
    ensures
        r == stmt_effect(*s),
    decreases s, 0nat,
{
    match s {
        Stmt::Declaration(d) => detect_side_effect_of_decl(d),
        Stmt::Expression(e) => detect_side_effect_of_expr(e),
        Stmt::ImportOrExportAll => false,
        Stmt::ExportDefault(d) => match d {
            ExportDefault::Expression(e) => detect_side_effect_of_expr(e),
            ExportDefault::Function => false,
            ExportDefault::Class(c) => detect_side_effect_of_class(c),
        },
        Stmt::ExportNamed { has_source, declaration } => {
            if *has_source {
                false
            } else {
                match declaration {
                    Some(d) => detect_side_effect_of_decl(d),
                    None => false,
                }
            }
        },
        Stmt::Block(v) => detect_side_effect_of_block(v),
        Stmt::DoWhile { body, test } => detect_side_effect_of_stmt(body) || detect_side_effect_of_expr(test),
        Stmt::While { test, body } => detect_side_effect_of_expr(test) || detect_side_effect_of_stmt(body),
        Stmt::If { test, consequent, alternate } => {
            detect_side_effect_of_expr(test) || detect_side_effect_of_stmt(consequent) || match alternate {
                Some(a) => detect_side_effect_of_stmt(a),
                None => false,
            }
        },
        Stmt::Return(arg) => match arg {
            Some(x) => detect_side_effect_of_expr(x),
            None => false,
        },
        Stmt::Labeled(b) => detect_side_effect_of_stmt(b),
        Stmt::Try { block, handler, finalizer } => {
            detect_side_effect_of_block(block) || match handler {
                Some(h) => detect_side_effect_of_block(h),
                None => false,
            } || match finalizer {
                Some(f) => detect_side_effect_of_block(f),
                None => false,
            }
        },
        Stmt::Switch { discriminant, cases } => detect_side_effect_of_expr(discriminant) || any_case_effect(cases),
        Stmt::Empty => false,
        Stmt::Effectful => true,
    }
}

} // verus!
