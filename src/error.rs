use vstd::prelude::*;
use crate::ast::Span;

verus! {

/// The findings of the analysis: the properties of interest it reports.
#[derive(Clone, Copy, Debug, PartialEq, Eq, Structural)]
pub enum AnalysisError {
    /// A statement that can never run.
    DeadCode,
    /// An assertion that fails in every state that reaches it.
    FailedAssert,
    /// A reference to a variable that is not in scope.
    UnknownVariable,
    /// A division or remainder by a divisor that can only be 0.
    IllegalOperation,
}

impl AnalysisError {
    pub open spec fn spec_name(&self) -> Seq<char> {
        match self {
            AnalysisError::DeadCode => "DeadCode"@,
            AnalysisError::FailedAssert => "FailedAssert"@,
            AnalysisError::UnknownVariable => "UnknownVariable"@,
            AnalysisError::IllegalOperation => "IllegalOperation"@,
        }
    }

    /// The name of the finding, as reports print it.
    pub fn name(&self) -> (r: &'static str)
        ensures
            r@ == self.spec_name(),
    {
        match self {
            AnalysisError::DeadCode => "DeadCode",
            AnalysisError::FailedAssert => "FailedAssert",
            AnalysisError::UnknownVariable => "UnknownVariable",
            AnalysisError::IllegalOperation => "IllegalOperation",
        }
    }
}

/// An error found while the parser builds the tree: where, and what.
#[derive(Clone, Debug)]
pub struct SemanticError {
    span: Option<Span>,
    msg: String,
}

impl SemanticError {
    pub closed spec fn location(&self) -> Option<Span> {
        self.span
    }

    pub closed spec fn text(&self) -> Seq<char> {
        self.msg@
    }

    pub fn new(span: Option<Span>, msg: &str) -> (r: SemanticError)
        ensures
            r.location() == span,
            r.text() == msg@,
    {
        SemanticError { span, msg: msg.to_owned() }
    }

    pub fn get_span(&self) -> (r: Option<Span>)
        ensures
            r == self.location(),
    {
        self.span
    }

    pub fn message(&self) -> (r: &str)
        ensures
            r@ == self.text(),
    {
        self.msg.as_str()
    }
}

} // verus!
