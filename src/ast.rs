use vstd::prelude::*;

use crate::context::Symbol;

verus! {

/// A whole source file: its top-level declarations in order.
#[derive(Debug)]
pub struct Program {
    pub decls: Vec<Decl>,
}

/// `identifier :: value`
#[derive(Debug)]
pub struct Decl {
    pub identifier: Symbol,
    pub value: Box<Expr>,
}

#[derive(Clone, Copy, PartialEq, Eq, Structural, Debug)]
pub enum Const {
    IntegerConstant { value: i32 },
}

#[derive(Clone, Copy, PartialEq, Eq, Structural, Debug)]
pub enum RangeKind {
    Inclusive,
    Exclusive,
}

#[derive(Clone, Copy, PartialEq, Eq, Structural, Debug)]
pub enum Type {
    I32,
    Unit,
}

/// A function parameter; the grammar has no parameter lists yet.
#[derive(Debug)]
pub struct Param {
    pub identifier: Symbol,
    pub ty: Type,
}

/// A brace-delimited sequence of expressions.
#[derive(Debug)]
pub struct CompoundExpr {
    pub exprs: Vec<Expr>,
}

#[derive(Debug)]
pub struct ElseIfBranch {
    pub cond_expr: Box<Expr>,
    pub true_branch: CompoundExpr,
}

#[derive(Debug)]
pub struct IfExpr {
    pub cond_expr: Box<Expr>,
    pub true_branch: CompoundExpr,
    pub else_if_branches: Vec<ElseIfBranch>,
    pub final_branch: Option<CompoundExpr>,
}

#[derive(Debug)]
pub enum ForIteration {
    Iterative {
        identifier: Symbol,
        start_expr: Box<Expr>,
        end_expr: Box<Expr>,
        range_kind: RangeKind,
    },
    Conditional { cond_expr: Box<Expr> },
}

/// A `for` loop; without an iteration it loops forever.
#[derive(Debug)]
pub struct ForExpr {
    pub iteration: Option<ForIteration>,
    pub body: CompoundExpr,
}

#[derive(Debug)]
pub struct Function {
    pub return_type: Type,
    pub parameters: Vec<Param>,
    pub body: CompoundExpr,
}

#[derive(Debug)]
pub struct BindDef {
    pub identifier: Symbol,
    pub value: Box<Expr>,
}

#[derive(Clone, Copy, PartialEq, Eq, Structural, Debug)]
pub struct BindRef {
    pub identifier: Symbol,
}

#[derive(Clone, Copy, PartialEq, Eq, Structural, Debug)]
pub struct FnCallExpr {
    pub identifier: Symbol,
}

#[derive(Debug)]
pub enum Expr {
    Const(Const),
    If(IfExpr),
    For(ForExpr),
    Break,
    Continue,
    Function(Function),
    Compound(CompoundExpr),
    BindDef(BindDef),
    BindRef(BindRef),
    FnCall(FnCallExpr),
    /// An expression followed by `;`: its value is discarded.
    Semi(Box<Expr>),
}

} // verus!
