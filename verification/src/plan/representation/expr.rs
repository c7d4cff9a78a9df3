//! Scalar expressions over row columns.
//!
//! `Apply` is pure and deterministic. Ops are opaque ids into a registry: the plan does not
//! interpret bodies.

use vstd::prelude::*;
use super::id::{ApplyId, ColId, ParamId};
use super::registry::literal_value;

verus! {

/// Projection of a node column onto a scalar.
#[derive(Debug)]
pub enum Projection {
    /// Element attribute (missing is nullish at evaluation).
    Attr(String),
    /// Aggregated descendant text.
    Text,
    /// Element tag name.
    Tag,
}

impl Projection {
    pub fn attr(name: &str) -> (r: Projection)
        ensures
            r matches Projection::Attr(n) && n@ == name@,
    {
        Projection::Attr(name.to_string())
    }
}

/// Compile-time constant.
#[derive(Debug)]
pub enum Literal {
    Unit,
    Bool(bool),
    Int(i64),
    Str(String),
}

impl Literal {
    pub fn str(s: &str) -> (r: Literal)
        ensures
            r matches Literal::Str(t) && t@ == s@,
    {
        Literal::Str(s.to_string())
    }

    pub fn boolean(value: bool) -> (r: Literal)
        ensures
            r == Literal::Bool(value),
    {
        Literal::Bool(value)
    }

    pub fn integer(value: i64) -> (r: Literal)
        ensures
            r == Literal::Int(value),
    {
        Literal::Int(value)
    }

    /// A copy of the literal.
    pub fn copy(&self) -> (r: Literal)
        ensures
            literal_value(r) == literal_value(*self),
    {
        match self {
            Literal::Unit => Literal::Unit,
            Literal::Bool(b) => Literal::Bool(*b),
            Literal::Int(n) => Literal::Int(*n),
            Literal::Str(s) => Literal::Str(s.clone()),
        }
    }

    pub fn unit() -> (r: Literal)
        ensures
            r == Literal::Unit,
    {
        Literal::Unit
    }
}

/// Scalar expression.
///
/// ```text
/// e ::= Literal | Parameter | Col | Field(node, projection) | Apply(op, e1, ..., eN)
/// ```
#[derive(Debug)]
pub enum Expr {
    Literal(Literal),
    Parameter(ParamId),
    /// Column already on the row (node binding or prior projection output).
    Col(ColId),
    /// Node field projection.
    Field { node: ColId, projection: Projection },
    Apply { op: ApplyId, args: Vec<Expr> },
}

impl Expr {
    pub fn literal(value: Literal) -> (r: Expr)
        ensures
            r == Expr::Literal(value),
    {
        Expr::Literal(value)
    }

    pub fn param(id: ParamId) -> (r: Expr)
        ensures
            r == Expr::Parameter(id),
    {
        Expr::Parameter(id)
    }

    pub fn col(id: ColId) -> (r: Expr)
        ensures
            r == Expr::Col(id),
    {
        Expr::Col(id)
    }

    pub fn field(node: ColId, projection: Projection) -> (r: Expr)
        ensures
            r == (Expr::Field { node, projection }),
    {
        Expr::Field { node, projection }
    }

    pub fn attr(node: ColId, name: &str) -> (r: Expr)
        ensures
            r matches Expr::Field { node: n, projection: Projection::Attr(a) } && n == node && a@ == name@,
    {
        Expr::field(node, Projection::attr(name))
    }

    pub fn text(node: ColId) -> (r: Expr)
        ensures
            r == (Expr::Field { node, projection: Projection::Text }),
    {
        Expr::field(node, Projection::Text)
    }

    pub fn tag(node: ColId) -> (r: Expr)
        ensures
            r == (Expr::Field { node, projection: Projection::Tag }),
    {
        Expr::field(node, Projection::Tag)
    }

    pub fn apply(op: ApplyId, args: Vec<Expr>) -> (r: Expr)
        ensures
            r == (Expr::Apply { op, args }),
    {
        Expr::Apply { op, args }
    }
}

} // verus!
