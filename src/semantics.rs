use vstd::prelude::*;
use crate::ast::{BoolBinaryOp, BoolExpr, BoolUnaryOp, CompareOp, IntBinaryOp, IntExpr, IntUnaryOp, Span, TNode};
use crate::error::SemanticError;
use crate::symbol::{SymbolBuilder, SymbolTable};
use crate::typing::Type;

verus! {

/// Declares the variable that `id` names, with type `typ`; `text` is the
/// source text of its name. Declaring a name twice is a semantic error at
/// the name's span.
pub fn insert(id: SymbolBuilder, typ: Type, sym_table: &mut SymbolTable, text: &str) -> (r: Result<
    (),
    SemanticError,
>)
    requires
        old(sym_table).wf(),
    ensures
        final(sym_table).wf(),
        r.is_ok() == !old(sym_table).declares(text@),
        r.is_err() ==> *final(sym_table) == *old(sym_table) && r->Err_0.location() == Some(id.span()),
        r.is_ok() ==> (final(sym_table).lookup(text@) matches Some(sym) && sym.name() == text@ && sym.dtype()
            == typ),
{
    let mut id = id;
    id.dtype(typ);
    let span = id.get_name();
    match sym_table.insert_builder(id, text) {
        Ok(()) => Ok(()),
        Err(msg) => Err(SemanticError::new(Some(span), msg.as_str())),
    }
}

pub fn create_int_binop(op: IntBinaryOp, span: Span, left: IntExpr, right: IntExpr) -> (r: Result<
    IntExpr,
    SemanticError,
>)
    ensures
        r matches Ok(e) && e == (IntExpr::Binary { span, op, lhs: Box::new(left), rhs: Box::new(right) }),
{
    Ok(IntExpr::Binary { op, span, lhs: Box::new(left), rhs: Box::new(right) })
}

pub fn create_int_unop(op: IntUnaryOp, span: Span, exp: IntExpr) -> (r: Result<IntExpr, SemanticError>)
    ensures
        r matches Ok(e) && e == (IntExpr::Unary { span, op, exp: Box::new(exp) }),
{
    Ok(IntExpr::Unary { op, span, exp: Box::new(exp) })
}

pub fn create_bool_binop(op: BoolBinaryOp, span: Span, left: BoolExpr, right: BoolExpr) -> (r: Result<
    BoolExpr,
    SemanticError,
>)
    ensures
        r matches Ok(e) && e == (BoolExpr::Binary { span, op, lhs: Box::new(left), rhs: Box::new(right) }),
{
    Ok(BoolExpr::Binary { op, span, lhs: Box::new(left), rhs: Box::new(right) })
}

pub fn create_bool_unop(op: BoolUnaryOp, span: Span, exp: BoolExpr) -> (r: Result<BoolExpr, SemanticError>)
    ensures
        r matches Ok(e) && e == (BoolExpr::Unary { span, op, exp: Box::new(exp) }),
{
    Ok(BoolExpr::Unary { op, span, exp: Box::new(exp) })
}

pub fn create_bool_compare(op: CompareOp, span: Span, lhs: IntExpr, rhs: IntExpr) -> (r: Result<
    BoolExpr,
    SemanticError,
>)
    ensures
        r matches Ok(e) && e == (BoolExpr::Compare { span, op, lhs, rhs }),
{
    Ok(BoolExpr::Compare { op, span, lhs, rhs })
}

pub fn create_while(cond: BoolExpr, body: TNode) -> (r: Result<TNode, SemanticError>)
    ensures
        r matches Ok(t) && t == (TNode::While { cond, body: Box::new(body) }),
{
    Ok(TNode::While { cond, body: Box::new(body) })
}

pub fn create_if(cond: BoolExpr, then: Box<TNode>, otherwise: Option<Box<TNode>>) -> (r: Result<
    TNode,
    SemanticError,
>)
    ensures
        r matches Ok(t) && t == (TNode::If { cond, then, otherwise }),
{
    Ok(TNode::If { cond, then, otherwise })
}

} // verus!
