use rsabsint::ast::{BoolBinaryOp, BoolExpr, CompareOp, IntBinaryOp, IntExpr, IntUnaryOp, Span, TNode};
use rsabsint::concrete::Concrete;
use rsabsint::constant::Constant;
use rsabsint::domain::ValueDomain;
use rsabsint::error::AnalysisError;
use rsabsint::interpreter::{AnalysisResults, MonotonicFixpointIterator};
use rsabsint::interval::Interval;
use rsabsint::symbol::Symbol;
use rsabsint::typing::Type;

fn sp(n: usize) -> Span {
    Span::new(n, n + 1)
}

fn var(name: &str) -> Symbol {
    Symbol::new(name, Type::Int)
}

fn cst(n: i64) -> IntExpr {
    IntExpr::Const { span: sp(0), cst: n }
}

fn ident(name: &str) -> IntExpr {
    IntExpr::Ident { span: sp(0), var: var(name) }
}

fn rand(lo: i64, hi: i64) -> IntExpr {
    IntExpr::Rand { span: sp(0), lower: Box::new(cst(lo)), upper: Box::new(cst(hi)) }
}

fn bin(op: IntBinaryOp, l: IntExpr, r: IntExpr) -> IntExpr {
    IntExpr::Binary { span: sp(0), op, lhs: Box::new(l), rhs: Box::new(r) }
}

fn cmp(at: usize, op: CompareOp, l: IntExpr, r: IntExpr) -> BoolExpr {
    BoolExpr::Compare { span: sp(at), op, lhs: l, rhs: r }
}

fn assign(name: &str, e: IntExpr) -> TNode {
    TNode::Assign { lhs: var(name), rhs: e }
}

fn block(decls: &[&str], stmts: Vec<TNode>) -> Vec<TNode> {
    vec![TNode::Block { decl: decls.iter().map(|d| var(d)).collect(), stmt: stmts }]
}

fn itv(lo: i64, hi: i64) -> Interval {
    Interval::Range { lo: Some(lo), hi: Some(hi) }
}

fn run_interval(program: Vec<TNode>, unroll: u32, delay: u32) -> (Vec<AnalysisResults>, Vec<String>) {
    let mut it: MonotonicFixpointIterator<Interval> = MonotonicFixpointIterator::new(program, unroll, delay);
    let _ = it.eval_prog();
    (it.results().clone(), it.printed().clone())
}

#[test]
fn scenario_rand_within_bounds() {
    let cond = BoolExpr::Binary {
        span: sp(7),
        op: BoolBinaryOp::And,
        lhs: Box::new(cmp(8, CompareOp::GE, ident("x"), cst(0))),
        rhs: Box::new(cmp(9, CompareOp::LE, ident("x"), cst(10))),
    };
    let program = block(&["x"], vec![assign("x", rand(0, 10)), TNode::Assert { cond }]);
    let (findings, _) = run_interval(program, 0, 0);
    assert!(findings.is_empty());
}

#[test]
fn scenario_constant_failed_assert() {
    let program = block(
        &["x"],
        vec![assign("x", cst(5)), TNode::Assert { cond: cmp(3, CompareOp::EQ, ident("x"), cst(6)) }],
    );
    let mut it: MonotonicFixpointIterator<Constant> = MonotonicFixpointIterator::new(program, 0, 0);
    let _ = it.eval_prog();
    assert_eq!(it.results().clone(), vec![AnalysisResults::new(AnalysisError::FailedAssert, Some(sp(3)))]);
}

#[test]
fn scenario_loop_narrowed_to_exit_value() {
    let body = TNode::Block { decl: vec![], stmt: vec![assign("x", bin(IntBinaryOp::Add, ident("x"), cst(1)))] };
    let program = block(
        &["x"],
        vec![
            assign("x", cst(0)),
            TNode::While { cond: cmp(2, CompareOp::LT, ident("x"), cst(10)), body: Box::new(body) },
            TNode::Assert { cond: cmp(4, CompareOp::EQ, ident("x"), cst(10)) },
            TNode::Print { vars: vec![var("x")] },
        ],
    );
    let (findings, printed) = run_interval(program, 0, 0);
    assert!(findings.is_empty());
    assert_eq!(printed, vec!["x : [10, 10]".to_string()]);
}

#[test]
fn scenario_halt_arm_pruned() {
    let program = block(
        &["x"],
        vec![
            assign("x", rand(0, 1)),
            TNode::If {
                cond: cmp(2, CompareOp::EQ, ident("x"), cst(0)),
                then: Box::new(TNode::Halt),
                otherwise: None,
            },
            assign("x", bin(IntBinaryOp::Add, ident("x"), cst(1))),
            TNode::Assert { cond: cmp(5, CompareOp::EQ, ident("x"), cst(2)) },
        ],
    );
    let (findings, _) = run_interval(program, 0, 0);
    assert!(findings.is_empty());
}

#[test]
fn scenario_dead_code_after_halt() {
    let dead = TNode::Assign { lhs: var("x"), rhs: IntExpr::Const { span: sp(9), cst: 1 } };
    let program = block(&["x"], vec![TNode::Halt, dead]);
    let (findings, _) = run_interval(program, 0, 0);
    assert_eq!(findings, vec![AnalysisResults::new(AnalysisError::DeadCode, Some(sp(9)))]);
}

#[test]
fn scenario_division_by_positive_divisor() {
    let program = block(
        &["x", "y"],
        vec![assign("x", rand(1, 3)), assign("y", bin(IntBinaryOp::Div, cst(10), ident("x")))],
    );
    let (findings, _) = run_interval(program, 0, 0);
    assert!(findings.is_empty());
}

#[test]
fn scenario_division_divisor_narrowed_away_from_zero() {
    let program = block(
        &["x", "y"],
        vec![assign("x", rand(0, 3)), assign("y", bin(IntBinaryOp::Div, cst(10), ident("x")))],
    );
    let (findings, _) = run_interval(program, 0, 0);
    assert!(findings.is_empty());
}

#[test]
fn division_by_zero_only_is_illegal() {
    let div = IntExpr::Binary { span: sp(6), op: IntBinaryOp::Div, lhs: Box::new(cst(10)), rhs: Box::new(cst(0)) };
    let program = block(&["y"], vec![TNode::Assign { lhs: var("y"), rhs: div }]);
    let (findings, _) = run_interval(program, 0, 0);
    assert_eq!(findings, vec![AnalysisResults::new(AnalysisError::IllegalOperation, Some(sp(6)))]);
}

#[test]
fn undeclared_variable_is_reported() {
    let e = IntExpr::Ident { span: sp(4), var: var("z") };
    let program = block(&["x"], vec![TNode::Assign { lhs: var("x"), rhs: e }]);
    let (findings, _) = run_interval(program, 0, 0);
    assert_eq!(findings, vec![AnalysisResults::new(AnalysisError::UnknownVariable, Some(sp(4)))]);
}

#[test]
fn finding_heading_names_kind() {
    let f = AnalysisResults::new(AnalysisError::FailedAssert, None);
    assert_eq!(f.show(), "FailedAssert in statement :".to_string());
}

#[test]
fn interval_lattice_operations() {
    let a = itv(0, 1);
    let b = itv(3, 4);
    assert_eq!(a.join(&b), itv(0, 4));
    assert_eq!(a.meet(&b), Interval::Bot);
    assert_eq!(itv(0, 5).meet(&itv(3, 9)), itv(3, 5));
    assert!(itv(1, 2).subset(&itv(0, 4)));
    assert!(!itv(0, 4).subset(&itv(1, 2)));
    assert!(Interval::bottom().is_bottom());
    assert!(!Interval::top().is_bottom());
}

#[test]
fn interval_widen_and_narrow() {
    let w = itv(0, 1).widen(&itv(0, 2));
    assert_eq!(w, Interval::Range { lo: Some(0), hi: None });
    let w2 = itv(0, 1).widen(&itv(-1, 1));
    assert_eq!(w2, Interval::Range { lo: None, hi: Some(1) });
    assert_eq!(w.narrow(&itv(0, 10)), itv(0, 10));
}

#[test]
fn interval_lattice_laws_on_values() {
    let a = itv(2, 7);
    let b = itv(5, 12);
    assert_eq!(a.join(&a), a);
    assert_eq!(a.meet(&a), a);
    assert_eq!(a.join(&b), b.join(&a));
    assert_eq!(a.meet(&b), b.meet(&a));
    assert_eq!(a.join(&a.meet(&b)), a);
    assert_eq!(a.join(&Interval::bottom()), a);
    assert_eq!(a.meet(&Interval::bottom()), Interval::bottom());
    assert!(itv(3, 4).join(&itv(6, 6)).subset(&itv(2, 5).join(&itv(6, 9))));
}

#[test]
fn interval_widening_chain_stabilises() {
    let mut y = itv(0, 0);
    let mut changes = 0;
    for i in 1..50 {
        let next = y.widen(&itv(0, i));
        if next != y {
            changes += 1;
        }
        y = next;
    }
    assert_eq!(y, Interval::Range { lo: Some(0), hi: None });
    assert!(changes <= 3);
}

#[test]
fn interval_arithmetic() {
    assert_eq!(Interval::binary(IntBinaryOp::Add, &itv(1, 2), &itv(10, 20)), Some(itv(11, 22)));
    assert_eq!(Interval::binary(IntBinaryOp::Sub, &itv(1, 2), &itv(10, 20)), Some(itv(-19, -8)));
    assert_eq!(Interval::binary(IntBinaryOp::Div, &itv(1, 2), &itv(0, 0)), None);
    assert_eq!(Interval::range(&itv(0, 0), &itv(10, 10)), itv(0, 10));
    let (l, r) = Interval::compare(CompareOp::LT, &itv(0, 20), &itv(5, 5));
    assert_eq!(l, itv(0, 4));
    assert_eq!(r, itv(5, 5));
    let (l2, r2) = Interval::compare(CompareOp::GT, &itv(0, 3), &itv(5, 9));
    assert_eq!(l2, Interval::Bot);
    assert_eq!(r2, Interval::Bot);
}

#[test]
fn constant_lattice_and_arithmetic() {
    assert_eq!(Constant::Cst(5).join(&Constant::Cst(5)), Constant::Cst(5));
    assert_eq!(Constant::Cst(5).join(&Constant::Cst(6)), Constant::Top);
    assert_eq!(Constant::Cst(5).meet(&Constant::Cst(6)), Constant::Bot);
    assert_eq!(Constant::Top.meet(&Constant::Cst(6)), Constant::Cst(6));
    assert_eq!(Constant::Bot.join(&Constant::Cst(1)), Constant::Cst(1));
    assert_eq!(Constant::binary(IntBinaryOp::Mul, &Constant::Cst(6), &Constant::Cst(7)), Some(Constant::Cst(42)));
    assert_eq!(Constant::binary(IntBinaryOp::Mod, &Constant::Cst(6), &Constant::Cst(0)), None);
    assert!(Constant::Cst(3).subset(&Constant::Top));
    assert!(!Constant::Top.subset(&Constant::Cst(3)));
}

#[test]
fn concrete_sets_lattice_and_arithmetic() {
    assert_eq!(Concrete::One(3).join(&Concrete::One(1)), Concrete::Two(1, 3));
    assert_eq!(Concrete::Two(1, 3).join(&Concrete::One(5)), Concrete::Top);
    assert_eq!(Concrete::Two(1, 3).meet(&Concrete::Two(3, 9)), Concrete::One(3));
    assert_eq!(Concrete::Two(1, 3).meet(&Concrete::One(2)), Concrete::Bot);
    assert!(Concrete::One(1).subset(&Concrete::Two(1, 3)));
    assert!(!Concrete::Two(1, 3).subset(&Concrete::One(1)));
    assert_eq!(Concrete::range(&Concrete::One(0), &Concrete::One(1)), Concrete::Two(0, 1));
    assert_eq!(Concrete::unary(IntUnaryOp::SubUnary, &Concrete::Two(1, 3)), Concrete::Two(-3, -1));
    assert_eq!(Concrete::binary(IntBinaryOp::Add, &Concrete::One(2), &Concrete::One(3)), Some(Concrete::One(5)));
    assert_eq!(Concrete::binary(IntBinaryOp::Div, &Concrete::One(2), &Concrete::One(0)), None);
    let a = Concrete::Two(4, 8);
    let b = Concrete::One(8);
    assert_eq!(a.join(&a), a);
    assert_eq!(a.join(&b), b.join(&a));
    assert_eq!(a.join(&a.meet(&b)), a);
}

#[test]
fn scenario_concrete_domain_assert_holds() {
    let program = block(
        &["x"],
        vec![
            assign("x", rand(0, 1)),
            assign("x", bin(IntBinaryOp::Add, ident("x"), cst(1))),
            TNode::Assert { cond: cmp(3, CompareOp::GE, ident("x"), cst(1)) },
            TNode::Print { vars: vec![var("x")] },
        ],
    );
    let mut it: MonotonicFixpointIterator<Concrete> = MonotonicFixpointIterator::new(program, 0, 0);
    let _ = it.eval_prog();
    assert!(it.results().is_empty());
    assert_eq!(it.printed().clone(), vec!["x : top".to_string()]);
}

#[test]
fn statement_after_failed_assert_is_dead() {
    let after = TNode::Assign { lhs: var("x"), rhs: IntExpr::Const { span: sp(8), cst: 1 } };
    let program = block(
        &["x"],
        vec![assign("x", cst(5)), TNode::Assert { cond: cmp(3, CompareOp::EQ, ident("x"), cst(6)) }, after],
    );
    let mut it: MonotonicFixpointIterator<Constant> = MonotonicFixpointIterator::new(program, 0, 0);
    let _ = it.eval_prog();
    assert_eq!(
        it.results().clone(),
        vec![
            AnalysisResults::new(AnalysisError::FailedAssert, Some(sp(3))),
            AnalysisResults::new(AnalysisError::DeadCode, Some(sp(8))),
        ]
    );
}

#[test]
fn unentered_loop_body_reports_nothing() {
    let body = TNode::Block { decl: vec![], stmt: vec![TNode::Assert { cond: cmp(6, CompareOp::EQ, ident("x"), cst(99)) }] };
    let program = block(
        &["x"],
        vec![
            assign("x", cst(20)),
            TNode::While { cond: cmp(2, CompareOp::LT, ident("x"), cst(10)), body: Box::new(body) },
            TNode::Print { vars: vec![var("x")] },
        ],
    );
    let (findings, printed) = run_interval(program, 2, 1);
    assert!(findings.is_empty());
    assert_eq!(printed, vec!["x : [20, 20]".to_string()]);
}

#[test]
fn infeasible_comparisons_give_bottom_on_both_sides() {
    assert_eq!(Interval::compare(CompareOp::LT, &itv(5, 9), &itv(0, 5)), (Interval::Bot, Interval::Bot));
    assert_eq!(Interval::compare(CompareOp::LE, &itv(6, 9), &itv(0, 5)), (Interval::Bot, Interval::Bot));
    assert_eq!(Interval::compare(CompareOp::GE, &itv(0, 4), &itv(5, 9)), (Interval::Bot, Interval::Bot));
    assert_eq!(Interval::compare(CompareOp::NE, &itv(3, 3), &itv(3, 3)), (Interval::Bot, Interval::Bot));
    assert_eq!(
        Interval::compare(CompareOp::LT, &itv(i64::MIN, 0), &itv(i64::MIN, i64::MIN)),
        (Interval::Bot, Interval::Bot)
    );
    assert_eq!(
        Concrete::compare(CompareOp::LT, &Concrete::Two(1, 2), &Concrete::One(0)),
        (Concrete::Bot, Concrete::Bot)
    );
    assert_eq!(
        Concrete::compare(CompareOp::LT, &Concrete::Two(1, 2), &Concrete::One(2)),
        (Concrete::Two(1, 2), Concrete::One(2))
    );
    assert_eq!(Constant::compare(CompareOp::GT, &Constant::Cst(1), &Constant::Cst(2)), (Constant::Bot, Constant::Bot));
}
