//! Operator precedence and the parentheses that spliced expressions need.

use vstd::prelude::*;

verus! {

/// A change applied to replacement text when it is put in place.
#[derive(Clone, Copy, PartialEq, Eq, Structural, Debug)]
pub enum TextAdjust {
    /// The text is put in place as it is.
    AsIs,
    /// The text is wrapped in a pair of parentheses.
    Parenthesize,
}

/// How a binary operator groups a chain of its own applications.
#[derive(Clone, Copy, PartialEq, Eq, Structural, Debug)]
pub enum Fixity {
    Left,
    Right,
    NonAssoc,
}

/// A binary operator, as far as parenthesization is concerned.
#[derive(Clone, Copy, PartialEq, Eq, Structural, Debug)]
pub struct BinOp {
    pub precedence: i8,
    pub fixity: Fixity,
}

/// What a syntactic position demands of the expression that fills it: a
/// minimum precedence, and the kind of position.
#[derive(Clone, Copy, PartialEq, Eq, Structural, Debug)]
pub enum ExprPrec {
    /// An ordinary operand position.
    Normal(i8),
    /// The head of a conditional, where a struct literal would be read as
    /// the start of a block.
    Cond(i8),
    /// The callee of a call, where a field access would be read as a
    /// method call.
    Callee(i8),
}

/// The precedence demanded by a position that accepts any expression, such
/// as a statement of its own.
pub const PREC_RESET: i8 = -100;

/// What parenthesization reads of an expression.
#[derive(Clone, Copy, PartialEq, Eq, Structural, Debug)]
pub struct ExprInfo {
    /// The precedence of the expression's outermost operator.
    pub precedence: i8,
    /// The expression begins with a struct literal that no bracket encloses.
    pub exterior_struct_lit: bool,
    /// The expression is a field access.
    pub field_access: bool,
}

impl ExprPrec {
    /// The minimum precedence that the position demands.
    pub open spec fn min_prec(self) -> i8 {
        match self {
            ExprPrec::Normal(p) => p,
            ExprPrec::Cond(p) => p,
            ExprPrec::Callee(p) => p,
        }
    }
}

/// Whether `e` must be wrapped in parentheses to stand at a position that
/// demands `at`.
pub open spec fn needs_parens(e: ExprInfo, at: ExprPrec) -> bool {
    match at {
        ExprPrec::Normal(min) => e.precedence < min,
        ExprPrec::Cond(min) => e.precedence < min || e.exterior_struct_lit,
        ExprPrec::Callee(min) => e.field_access || e.precedence < min,
    }
}

/// The adjustment that `needs_parens` calls for.
pub open spec fn adjustment_for(e: ExprInfo, at: ExprPrec) -> TextAdjust {
    if needs_parens(e, at) {
        TextAdjust::Parenthesize
    } else {
        TextAdjust::AsIs
    }
}

/// The precedence that the left operand of `op` must have.
pub open spec fn left_operand_prec(op: BinOp) -> int {
    match op.fixity {
        Fixity::Left => op.precedence as int,
        Fixity::Right => op.precedence + 1,
        Fixity::NonAssoc => op.precedence + 1,
    }
}

/// The precedence that the right operand of `op` must have.
pub open spec fn right_operand_prec(op: BinOp) -> int {
    match op.fixity {
        Fixity::Left => op.precedence + 1,
        Fixity::Right => op.precedence as int,
        Fixity::NonAssoc => op.precedence + 1,
    }
}

pub fn get_adjustment(e: &ExprInfo, at: ExprPrec) -> (adj: TextAdjust)
    ensures
        adj == adjustment_for(*e, at),
{
    let need_parens = match at {
        ExprPrec::Normal(min_prec) => e.precedence < min_prec,
        ExprPrec::Cond(min_prec) => e.precedence < min_prec || e.exterior_struct_lit,
        ExprPrec::Callee(min_prec) => e.field_access || e.precedence < min_prec,
    };
    if need_parens {
        TextAdjust::Parenthesize
    } else {
        TextAdjust::AsIs
    }
}

pub fn binop_left_prec(op: &BinOp) -> (prec: i8)
    requires
        op.precedence < i8::MAX,
    ensures
        prec == left_operand_prec(*op),
{
    match op.fixity {
        Fixity::Left => op.precedence,
        Fixity::Right => op.precedence + 1,
        Fixity::NonAssoc => op.precedence + 1,
    }
}

pub fn binop_right_prec(op: &BinOp) -> (prec: i8)
    requires
        op.precedence < i8::MAX,
    ensures
        prec == right_operand_prec(*op),
{
    match op.fixity {
        Fixity::Left => op.precedence + 1,
        Fixity::Right => op.precedence,
        Fixity::NonAssoc => op.precedence + 1,
    }
}

/// An expression that binds less tightly than a left-associative operator
/// is parenthesized when it becomes that operator's left operand.
pub proof fn law_looser_left_operand_is_parenthesized(e: ExprInfo, op: BinOp)
    requires
        op.fixity == Fixity::Left,
        e.precedence < op.precedence,
    ensures
        adjustment_for(e, ExprPrec::Normal(left_operand_prec(op) as i8))
            == TextAdjust::Parenthesize,
{
}

/// At an ordinary position no expression is parenthesized unless it binds
/// less tightly than the position demands; in particular none is where the
/// position accepts any expression.
pub proof fn law_no_parens_where_precedence_suffices(e: ExprInfo, min: i8)
    requires
        e.precedence >= min,
    ensures
        adjustment_for(e, ExprPrec::Normal(min)) == TextAdjust::AsIs,
        e.precedence >= PREC_RESET ==> adjustment_for(e, ExprPrec::Normal(PREC_RESET))
            == TextAdjust::AsIs,
{
}

/// Each operand of a non-associative operator must bind strictly tighter
/// than the operator; of an associative one, only the operand on the side
/// away from which it groups.
pub proof fn law_operand_precedence(op: BinOp)
    ensures
        op.fixity == Fixity::Left ==> left_operand_prec(op) < right_operand_prec(op),
        op.fixity == Fixity::Right ==> right_operand_prec(op) < left_operand_prec(op),
        op.fixity == Fixity::NonAssoc ==> left_operand_prec(op) == right_operand_prec(op)
            && left_operand_prec(op) > op.precedence,
{
}

} // verus!
