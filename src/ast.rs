use vstd::prelude::*;
use crate::symbol::Symbol;

verus! {

/// A stretch of the source text, by byte offsets.
#[derive(Clone, Copy, Debug, PartialEq, Eq, Structural)]
pub struct Span {
    pub start: usize,
    pub end: usize,
}

impl Span {
    pub fn new(start: usize, end: usize) -> (r: Span)
        requires
            start <= end,
        ensures
            r.start == start && r.end == end,
    {
        Span { start, end }
    }

    pub fn start(&self) -> (r: usize)
        ensures
            r == self.start,
    {
        self.start
    }

    pub fn end(&self) -> (r: usize)
        ensures
            r == self.end,
    {
        self.end
    }
}

/// Binary operators on integers.
#[derive(Clone, Copy, Debug, PartialEq, Eq, Structural)]
pub enum IntBinaryOp {
    Add,
    Sub,
    Mul,
    Div,
    Mod,
}

/// Unary operators on integers.
#[derive(Clone, Copy, Debug, PartialEq, Eq, Structural)]
pub enum IntUnaryOp {
    AddUnary,
    SubUnary,
}

/// Comparison operators.
#[derive(Clone, Copy, Debug, PartialEq, Eq, Structural)]
pub enum CompareOp {
    NE,
    GT,
    GE,
    LT,
    LE,
    EQ,
}

/// Binary operators on booleans.
#[derive(Clone, Copy, Debug, PartialEq, Eq, Structural)]
pub enum BoolBinaryOp {
    And,
    Or,
}

/// Unary operators on booleans.
#[derive(Clone, Copy, Debug, PartialEq, Eq, Structural)]
pub enum BoolUnaryOp {
    Not,
}

/// Integer expressions.
#[derive(Debug)]
pub enum IntExpr {
    Unary { span: Span, op: IntUnaryOp, exp: Box<IntExpr> },
    Binary { span: Span, op: IntBinaryOp, lhs: Box<IntExpr>, rhs: Box<IntExpr> },
    Ident { span: Span, var: Symbol },
    Const { span: Span, cst: i64 },
    Rand { span: Span, lower: Box<IntExpr>, upper: Box<IntExpr> },
}

impl IntExpr {
    pub open spec fn span(&self) -> Span {
        match self {
            IntExpr::Unary { span, .. } => *span,
            IntExpr::Binary { span, .. } => *span,
            IntExpr::Ident { span, .. } => *span,
            IntExpr::Const { span, .. } => *span,
            IntExpr::Rand { span, .. } => *span,
        }
    }

    /// The span of the expression.
    pub fn get_span(&self) -> (r: &Span)
        ensures
            *r == self.span(),
    {
        match self {
            IntExpr::Unary { span, .. } => span,
            IntExpr::Binary { span, .. } => span,
            IntExpr::Ident { span, .. } => span,
            IntExpr::Const { span, .. } => span,
            IntExpr::Rand { span, .. } => span,
        }
    }
}

/// Boolean expressions.
#[derive(Debug)]
pub enum BoolExpr {
    Unary { span: Span, op: BoolUnaryOp, exp: Box<BoolExpr> },
    Binary { span: Span, op: BoolBinaryOp, lhs: Box<BoolExpr>, rhs: Box<BoolExpr> },
    Compare { span: Span, op: CompareOp, lhs: IntExpr, rhs: IntExpr },
    Const { span: Span, cst: bool },
}

impl BoolExpr {
    pub open spec fn span(&self) -> Span {
        match self {
            BoolExpr::Unary { span, .. } => *span,
            BoolExpr::Binary { span, .. } => *span,
            BoolExpr::Compare { span, .. } => *span,
            BoolExpr::Const { span, .. } => *span,
        }
    }

    /// The span of the expression.
    pub fn get_span(&self) -> (r: &Span)
        ensures
            *r == self.span(),
    {
        match self {
            BoolExpr::Unary { span, .. } => span,
            BoolExpr::Binary { span, .. } => span,
            BoolExpr::Compare { span, .. } => span,
            BoolExpr::Const { span, .. } => span,
        }
    }
}

/// Statements.
#[derive(Debug)]
pub enum TNode {
    Block { decl: Vec<Symbol>, stmt: Vec<TNode> },
    Assign { lhs: Symbol, rhs: IntExpr },
    If { cond: BoolExpr, then: Box<TNode>, otherwise: Option<Box<TNode>> },
    While { cond: BoolExpr, body: Box<TNode> },
    Halt,
    Assert { cond: BoolExpr },
    Print { vars: Vec<Symbol> },
}

impl TNode {
    /// The span of the expression that a statement evaluates: the right-hand
    /// side of an assignment, the condition of a test, a loop or an assertion.
    pub open spec fn span(&self) -> Option<Span> {
        match self {
            TNode::Assign { rhs, .. } => Some(rhs.span()),
            TNode::If { cond, .. } => Some(cond.span()),
            TNode::While { cond, .. } => Some(cond.span()),
            TNode::Assert { cond } => Some(cond.span()),
            _ => None,
        }
    }

    pub fn get_span(&self) -> (r: Option<&Span>)
        ensures
            match self.span() {
                Some(s) => r == Some(&s),
                None => r.is_none(),
            },
    {
        match self {
            TNode::Assign { rhs, .. } => Some(rhs.get_span()),
            TNode::If { cond, .. } => Some(cond.get_span()),
            TNode::While { cond, .. } => Some(cond.get_span()),
            TNode::Assert { cond } => Some(cond.get_span()),
            _ => None,
        }
    }
}

/// The comparison that holds exactly where `op` fails.
pub open spec fn negated(op: CompareOp) -> CompareOp {
    match op {
        CompareOp::NE => CompareOp::EQ,
        CompareOp::EQ => CompareOp::NE,
        CompareOp::LT => CompareOp::GE,
        CompareOp::GE => CompareOp::LT,
        CompareOp::LE => CompareOp::GT,
        CompareOp::GT => CompareOp::LE,
    }
}

/// Whether `a op b` holds.
pub open spec fn compare_holds(op: CompareOp, a: int, b: int) -> bool {
    match op {
        CompareOp::NE => a != b,
        CompareOp::EQ => a == b,
        CompareOp::LT => a < b,
        CompareOp::LE => a <= b,
        CompareOp::GT => a > b,
        CompareOp::GE => a >= b,
    }
}

impl CompareOp {
    /// The opposite comparison: `<=` and `>`, `<` and `>=`, `==` and `!=` swap.
    pub fn negate(&self) -> (r: CompareOp)
        ensures
            r == negated(*self),
            forall|a: int, b: int| compare_holds(r, a, b) == !compare_holds(*self, a, b),
    {
        match self {
            CompareOp::NE => CompareOp::EQ,
            CompareOp::EQ => CompareOp::NE,
            CompareOp::LT => CompareOp::GE,
            CompareOp::GE => CompareOp::LT,
            CompareOp::LE => CompareOp::GT,
            CompareOp::GT => CompareOp::LE,
        }
    }
}

/// A program is its list of top-level statements.
pub type Program = Vec<TNode>;

} // verus!
