use rsabsint::ast::{BoolExpr, CompareOp, IntBinaryOp, IntExpr, Span, TNode};
use rsabsint::env::Env;
use rsabsint::error::{AnalysisError, SemanticError};
use rsabsint::interval::Interval;
use rsabsint::parser_state::ParserState;
use rsabsint::semantics::{create_bool_compare, create_int_binop, create_while, insert};
use rsabsint::symbol::{Symbol, SymbolBuilder, SymbolTable};
use rsabsint::typing::{Type, TypeBuilder, TypeTable};

fn sp(n: usize) -> Span {
    Span::new(n, n + 1)
}

#[test]
fn symbol_accessors_and_order() {
    let a = Symbol::new("alpha", Type::Int);
    let b = Symbol::new("beta", Type::Bool);
    assert_eq!(a.get_name(), "alpha");
    assert_eq!(*b.get_type(), Type::Bool);
    assert_eq!(a.compare(&b), std::cmp::Ordering::Less);
    assert_eq!(b.compare(&a), std::cmp::Ordering::Greater);
    assert_eq!(a.compare(&Symbol::new("alpha", Type::Bool)), std::cmp::Ordering::Equal);
    assert_eq!(Symbol::new("ab", Type::Int).compare(&Symbol::new("abc", Type::Int)), std::cmp::Ordering::Less);
}

#[test]
fn symbol_table_insert_and_get() {
    let mut t = SymbolTable::new();
    assert!(t.insert_symbol(Symbol::new("x", Type::Int), true).is_ok());
    assert!(t.insert_symbol(Symbol::new("x", Type::Bool), true).is_err());
    assert_eq!(t.get("x"), Some(&Symbol::new("x", Type::Int)));
    assert!(t.insert_symbol(Symbol::new("x", Type::Bool), false).is_ok());
    assert_eq!(t.get("x"), Some(&Symbol::new("x", Type::Bool)));
    assert_eq!(t.get("y"), None);
}

#[test]
fn symbol_builder_needs_type() {
    let b = SymbolBuilder::new(sp(3));
    assert_eq!(b.get_name(), sp(3));
    assert!(b.clone().build("v").is_err());
    let mut b2 = b;
    b2.dtype(Type::Int);
    assert_eq!(b2.build("v"), Ok(Symbol::new("v", Type::Int)));
}

#[test]
fn insert_reports_redeclaration_at_name() {
    let mut t = SymbolTable::new();
    assert!(insert(SymbolBuilder::new(sp(1)), Type::Int, &mut t, "x").is_ok());
    let err: SemanticError = insert(SymbolBuilder::new(sp(5)), Type::Int, &mut t, "x").unwrap_err();
    assert_eq!(err.get_span(), Some(sp(5)));
    assert_eq!(err.message(), "Variable declared multiple times");
}

#[test]
fn type_builder_and_table() {
    let mut tb = TypeBuilder::new();
    assert!(tb.clone().build().is_err());
    tb.dtype(Type::Bool);
    assert_eq!(tb.build(), Ok(Type::Bool));
    assert_eq!(TypeTable::new().get("int"), None);
}

#[test]
fn parser_state_variables() {
    let mut st = ParserState::default();
    assert!(st.get_var("x").is_err());
    st.sym_table.insert_symbol(Symbol::new("x", Type::Int), true).unwrap();
    assert_eq!(st.get_var("x"), Ok(Symbol::new("x", Type::Int)));
    assert_eq!(st.update_state(), Ok(()));
    assert!(st.get_var("x").is_err());
}

#[test]
fn tree_constructors() {
    let e = create_int_binop(IntBinaryOp::Add, sp(0), IntExpr::Const { span: sp(1), cst: 1 }, IntExpr::Const { span: sp(2), cst: 2 })
        .unwrap();
    assert_eq!(*e.get_span(), sp(0));
    let c = create_bool_compare(CompareOp::LT, sp(4), e, IntExpr::Const { span: sp(5), cst: 9 }).unwrap();
    assert_eq!(*c.get_span(), sp(4));
    let w = create_while(c, TNode::Halt).unwrap();
    assert_eq!(w.get_span(), Some(&sp(4)));
    assert_eq!(TNode::Halt.get_span(), None);
}

#[test]
fn environment_assign_guard_and_join() {
    let x = Symbol::new("x", Type::Int);
    let mut env: Env<Interval> = Env::new();
    env.add_variable(&x).unwrap();
    let rand = IntExpr::Rand {
        span: sp(0),
        lower: Box::new(IntExpr::Const { span: sp(1), cst: 0 }),
        upper: Box::new(IntExpr::Const { span: sp(2), cst: 10 }),
    };
    env.assign(&x, &rand).unwrap();
    assert_eq!(env.print(&x), "[0, 10]");
    let guard = BoolExpr::Compare {
        span: sp(3),
        op: CompareOp::LE,
        lhs: IntExpr::Ident { span: sp(4), var: x.clone() },
        rhs: IntExpr::Const { span: sp(5), cst: 3 },
    };
    let low = env.guard(&guard, true).unwrap();
    let high = env.guard(&guard, false).unwrap();
    assert_eq!(low.print(&x), "[0, 3]");
    assert_eq!(high.print(&x), "[4, 10]");
    assert!(low.subset(&env));
    assert!(!env.subset(&low));
    assert_eq!(low.join(&high).print(&x), "[0, 10]");
    assert!(low.meet(&high).is_bottom());
    let y = Symbol::new("y", Type::Int);
    assert_eq!(env.assign(&y, &IntExpr::Const { span: sp(6), cst: 1 }), Err(AnalysisError::UnknownVariable));
}

#[test]
fn finding_names() {
    assert_eq!(AnalysisError::DeadCode.name(), "DeadCode");
    assert_eq!(AnalysisError::IllegalOperation.name(), "IllegalOperation");
}

#[test]
fn error_texts() {
    let mut t = SymbolTable::new();
    t.insert_symbol(Symbol::new("x", Type::Int), true).unwrap();
    assert_eq!(t.insert_symbol(Symbol::new("x", Type::Int), true), Err("Multiple variables with same name defined".to_string()));
    assert_eq!(ParserState::new().get_var("q"), Err("Variable was not declared".to_string()));
    assert_eq!(TypeBuilder::new().build(), Err("Inner type was not set!".to_string()));
}
