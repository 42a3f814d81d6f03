//! The expression tree a parsed query becomes.
//!
//! An expression is a literal (string, number or date) or an infix node
//! combining two sub-expressions with an operator token. The tree is built
//! once per query and never changes afterwards.

use vstd::prelude::*;
use crate::token::{Decimal, DecimalModel, Token, TokenModel};

verus! {

/// A node of the query expression tree.
///
/// A bare string literal doubles as a field name on the left side of a
/// comparison; the validator gives it that meaning.
#[derive(Debug, PartialEq)]
pub enum Expression {
    StrLiteral(String),
    NumLiteral(Decimal),
    DateLiteral(i64),
    Infix(Box<InfixExpression>),
}

/// A binary node: a comparison or a logical combination.
#[derive(Debug, PartialEq)]
pub struct InfixExpression {
    pub left: Expression,
    pub operator: Token,
    pub right: Expression,
}

/// A parsed, validated query: a single owned expression.
#[derive(Debug, PartialEq)]
pub struct AST {
    pub expression: Expression,
}

/// Mathematical model of an [`Expression`].
pub enum ExprModel {
    StrLit(Seq<char>),
    NumLit(DecimalModel),
    DateLit(int),
    Infix(Box<InfixModel>),
}

/// Mathematical model of an [`InfixExpression`].
pub struct InfixModel {
    pub left: ExprModel,
    pub op: TokenModel,
    pub right: ExprModel,
}

impl View for Expression {
    type V = ExprModel;

    open spec fn view(&self) -> ExprModel
        decreases self,
    {
        match self {
            Expression::StrLiteral(s) => ExprModel::StrLit(s@),
            Expression::NumLiteral(d) => ExprModel::NumLit(d@),
            Expression::DateLiteral(t) => ExprModel::DateLit(*t as int),
            Expression::Infix(b) => ExprModel::Infix(
                Box::new(
                    InfixModel { left: b.left@, op: b.operator@, right: b.right@ },
                ),
            ),
        }
    }
}

impl View for InfixExpression {
    type V = InfixModel;

    open spec fn view(&self) -> InfixModel {
        InfixModel { left: self.left@, op: self.operator@, right: self.right@ }
    }
}

impl View for AST {
    type V = ExprModel;

    open spec fn view(&self) -> ExprModel {
        self.expression@
    }
}

/// Whether a tree has a canonical text at all: date literals have none
/// (their text form is not stored), a string with a quote cannot be
/// quoted back, numbers must be canonical, and operators must be real
/// operator tokens.
pub open spec fn spec_renderable(e: ExprModel) -> bool
    decreases e,
{
    match e {
        ExprModel::StrLit(s) => crate::text::find_from(s, '"', 0) == s.len(),
        ExprModel::NumLit(d) => crate::token::dec_wf(d),
        ExprModel::DateLit(_) => false,
        ExprModel::Infix(b) => crate::token::is_op_token(b.op) && spec_renderable(b.left)
            && spec_renderable(b.right),
    }
}

/// The canonical text of a tree: strings quoted, numbers in canonical
/// form, every infix node parenthesised with one space around its
/// operator.
pub open spec fn spec_render(e: ExprModel) -> Seq<char>
    decreases e,
{
    match e {
        ExprModel::StrLit(s) => seq!['"'] + s + seq!['"'],
        ExprModel::NumLit(d) => crate::token::spec_render_decimal(d),
        ExprModel::DateLit(_) => Seq::empty(),
        ExprModel::Infix(b) => seq!['('] + spec_render(b.left) + seq![' '] + crate::token::spec_describe(
            b.op,
        ) + seq![' '] + spec_render(b.right) + seq![')'],
    }
}

impl Expression {
    /// The canonical text of this expression, where it has one.
    pub fn render(&self) -> (r: Option<String>)
        ensures
            match r {
                Some(t) => spec_renderable(self@) && t@ == spec_render(self@),
                None => !spec_renderable(self@),
            },
        decreases self,
    {
        match self {
            Expression::StrLiteral(s) => {
                let len = s.as_str().unicode_len();
                if crate::text::find_char(s.as_str(), '"', 0) == len {
                    let quoted = String::from_str("\"").concat(s.as_str()).concat("\"");
                    proof {
                        reveal_strlit("\"");
                        assert("\""@ =~= seq!['"']);
                        assert(quoted@ =~= seq!['"'] + s@ + seq!['"']);
                    }
                    Some(quoted)
                } else {
                    None
                }
            },
            Expression::NumLiteral(d) => {
                let canonical = d.mantissa < 1000000000000000 && d.scale <= 15 && (d.scale == 0
                    || d.mantissa % 10 != 0);
                if canonical {
                    Some(d.to_text())
                } else {
                    None
                }
            },
            Expression::DateLiteral(_) => None,
            Expression::Infix(b) => {
                if !b.operator.is_operator() {
                    return None;
                }
                let left = match b.left.render() {
                    Some(t) => t,
                    None => {
                        return None;
                    },
                };
                let right = match b.right.render() {
                    Some(t) => t,
                    None => {
                        return None;
                    },
                };
                let rendered = String::from_str("(").concat(left.as_str()).concat(" ").concat(
                    b.operator.describe(),
                ).concat(" ").concat(right.as_str()).concat(")");
                proof {
                    reveal_strlit("(");
                    reveal_strlit(")");
                    reveal_strlit(" ");
                    assert("("@ =~= seq!['(']);
                    assert(")"@ =~= seq![')']);
                    assert(" "@ =~= seq![' ']);
                    assert(rendered@ =~= spec_render(self@));
                }
                Some(rendered)
            },
        }
    }
}

impl AST {
    /// The canonical text of this query, where it has one: re-parsing it
    /// reproduces the tree.
    pub fn render(&self) -> (r: Option<String>)
        ensures
            match r {
                Some(t) => spec_renderable(self@) && t@ == spec_render(self@),
                None => !spec_renderable(self@),
            },
    {
        self.expression.render()
    }
}

} // verus!
