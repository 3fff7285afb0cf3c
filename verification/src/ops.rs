//! The table of operators that stand between two operands.

use vstd::prelude::*;
use crate::ast::{AssignOp, BinaryOp, Expression, ExpressionView};
use crate::lexer::Punctuation;

verus! {

/// What an operator builds.
#[derive(Clone, Copy, Debug, PartialEq, Eq, Structural)]
pub enum Op {
    BinaryOp(BinaryOp),
    AssignOp(AssignOp),
}

/// One row of the operator table. A higher strength binds tighter.
#[derive(Clone, Copy, Debug, PartialEq, Eq, Structural)]
pub struct OpInfo {
    pub strength: u8,
    pub right_binding: bool,
    pub token: Punctuation,
    pub oper: Op,
}

impl Op {
    /// The expression that the operator makes of two operands.
    pub open spec fn build_spec(self, lhs: ExpressionView, rhs: ExpressionView) -> ExpressionView {
        match self {
            Op::BinaryOp(op) => ExpressionView::BinaryOp { op, lhs: Box::new(lhs), rhs: Box::new(rhs) },
            Op::AssignOp(op) => ExpressionView::AssignOp { op, lhs: Box::new(lhs), rhs: Box::new(rhs) },
        }
    }

    pub fn build(self, lhs: Box<Expression>, rhs: Box<Expression>) -> (e: Expression)
        ensures
            e@ == self.build_spec(lhs@, rhs@),
    {
        match self {
            Op::BinaryOp(op) => Expression::BinaryOp { op, lhs, rhs },
            Op::AssignOp(op) => Expression::AssignOp { op, lhs, rhs },
        }
    }
}

pub open spec fn binary(strength: u8, token: Punctuation, op: BinaryOp) -> Option<OpInfo> {
    Some(OpInfo { strength, right_binding: false, token, oper: Op::BinaryOp(op) })
}

pub open spec fn assign(token: Punctuation, op: AssignOp) -> Option<OpInfo> {
    Some(OpInfo { strength: 0, right_binding: true, token, oper: Op::AssignOp(op) })
}

/// The row of the table for a punctuation symbol, if it is an operator.
pub open spec fn operator(p: Punctuation) -> Option<OpInfo> {
    match p {
        Punctuation::Pow => binary(11, p, BinaryOp::Pow),
        Punctuation::Mul => binary(10, p, BinaryOp::Mul),
        Punctuation::Slash => binary(10, p, BinaryOp::Div),
        Punctuation::Mod => binary(10, p, BinaryOp::Mod),
        Punctuation::Add => binary(9, p, BinaryOp::Add),
        Punctuation::Sub => binary(9, p, BinaryOp::Sub),
        Punctuation::Less => binary(8, p, BinaryOp::Less),
        Punctuation::Greater => binary(8, p, BinaryOp::Greater),
        Punctuation::LessEq => binary(8, p, BinaryOp::LessEq),
        Punctuation::GreaterEq => binary(8, p, BinaryOp::GreaterEq),
        Punctuation::LShift => binary(7, p, BinaryOp::LShift),
        Punctuation::RShift => binary(7, p, BinaryOp::RShift),
        Punctuation::Eq => binary(6, p, BinaryOp::Eq),
        Punctuation::NotEq => binary(6, p, BinaryOp::NotEq),
        Punctuation::LessGreater => binary(6, p, BinaryOp::NotEq),
        Punctuation::BitAnd => binary(5, p, BinaryOp::BitAnd),
        Punctuation::BitXor => binary(5, p, BinaryOp::BitXor),
        Punctuation::BitOr => binary(5, p, BinaryOp::BitOr),
        Punctuation::And => binary(4, p, BinaryOp::And),
        Punctuation::Or => binary(3, p, BinaryOp::Or),
        Punctuation::Assign => assign(p, AssignOp::Assign),
        Punctuation::AddAssign => assign(p, AssignOp::AddAssign),
        Punctuation::SubAssign => assign(p, AssignOp::SubAssign),
        Punctuation::MulAssign => assign(p, AssignOp::MulAssign),
        Punctuation::DivAssign => assign(p, AssignOp::DivAssign),
        Punctuation::BitAndAssign => assign(p, AssignOp::BitAndAssign),
        Punctuation::BitOrAssign => assign(p, AssignOp::BitOrAssign),
        Punctuation::BitXorAssign => assign(p, AssignOp::BitXorAssign),
        Punctuation::LShiftAssign => assign(p, AssignOp::LShiftAssign),
        Punctuation::RShiftAssign => assign(p, AssignOp::RShiftAssign),
        _ => None,
    }
}

fn binary_row(strength: u8, token: Punctuation, op: BinaryOp) -> (row: Option<OpInfo>)
    ensures
        row == binary(strength, token, op),
{
    Some(OpInfo { strength, right_binding: false, token, oper: Op::BinaryOp(op) })
}

fn assign_row(token: Punctuation, op: AssignOp) -> (row: Option<OpInfo>)
    ensures
        row == assign(token, op),
{
    Some(OpInfo { strength: 0, right_binding: true, token, oper: Op::AssignOp(op) })
}

/// Looks a punctuation symbol up in the operator table.
pub fn find_operator(p: Punctuation) -> (row: Option<OpInfo>)
    ensures
        row == operator(p),
{
    match p {
        Punctuation::Pow => binary_row(11, p, BinaryOp::Pow),
        Punctuation::Mul => binary_row(10, p, BinaryOp::Mul),
        Punctuation::Slash => binary_row(10, p, BinaryOp::Div),
        Punctuation::Mod => binary_row(10, p, BinaryOp::Mod),
        Punctuation::Add => binary_row(9, p, BinaryOp::Add),
        Punctuation::Sub => binary_row(9, p, BinaryOp::Sub),
        Punctuation::Less => binary_row(8, p, BinaryOp::Less),
        Punctuation::Greater => binary_row(8, p, BinaryOp::Greater),
        Punctuation::LessEq => binary_row(8, p, BinaryOp::LessEq),
        Punctuation::GreaterEq => binary_row(8, p, BinaryOp::GreaterEq),
        Punctuation::LShift => binary_row(7, p, BinaryOp::LShift),
        Punctuation::RShift => binary_row(7, p, BinaryOp::RShift),
        Punctuation::Eq => binary_row(6, p, BinaryOp::Eq),
        Punctuation::NotEq => binary_row(6, p, BinaryOp::NotEq),
        Punctuation::LessGreater => binary_row(6, p, BinaryOp::NotEq),
        Punctuation::BitAnd => binary_row(5, p, BinaryOp::BitAnd),
        Punctuation::BitXor => binary_row(5, p, BinaryOp::BitXor),
        Punctuation::BitOr => binary_row(5, p, BinaryOp::BitOr),
        Punctuation::And => binary_row(4, p, BinaryOp::And),
        Punctuation::Or => binary_row(3, p, BinaryOp::Or),
        Punctuation::Assign => assign_row(p, AssignOp::Assign),
        Punctuation::AddAssign => assign_row(p, AssignOp::AddAssign),
        Punctuation::SubAssign => assign_row(p, AssignOp::SubAssign),
        Punctuation::MulAssign => assign_row(p, AssignOp::MulAssign),
        Punctuation::DivAssign => assign_row(p, AssignOp::DivAssign),
        Punctuation::BitAndAssign => assign_row(p, AssignOp::BitAndAssign),
        Punctuation::BitOrAssign => assign_row(p, AssignOp::BitOrAssign),
        Punctuation::BitXorAssign => assign_row(p, AssignOp::BitXorAssign),
        Punctuation::LShiftAssign => assign_row(p, AssignOp::LShiftAssign),
        Punctuation::RShiftAssign => assign_row(p, AssignOp::RShiftAssign),
        _ => None,
    }
}

/// Every row names the symbol it was found under. The assignment operators
/// are the rows of strength zero and the ones that bind to the right; every
/// other operator is stronger and binds to the left.
pub proof fn lemma_operator_table(p: Punctuation)
    ensures
        operator(p) matches Some(row) ==> {
            &&& row.token == p
            &&& row.strength <= 11
            &&& (row.oper is AssignOp <==> row.strength == 0)
            &&& (row.oper is AssignOp <==> row.right_binding)
            &&& (row.oper is BinaryOp ==> row.strength >= 3)
        },
{
}

} // verus!
