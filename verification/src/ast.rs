//! The expression tree.

use crate::token::Token;
use vstd::prelude::*;

verus! {

/// A node of the expression tree. A node owns its operands, and the token
/// that gave rise to it where there is one.
#[allow(inconsistent_fields)]
#[derive(Debug)]
pub enum Expression {
    Assign { name: Token, expr: Box<Expression> },
    Binary { left: Box<Expression>, operator: Token, right: Box<Expression> },
    Call { callee: Box<Expression>, paren: Token, arguments: Vec<Expression> },
    Get { expr: Box<Expression>, name: Token },
    Grouping { expr: Box<Expression> },
    Literal { value: Token },
    Logical { left: Box<Expression>, operator: Token, right: Box<Expression> },
    SetField { object: Box<Expression>, name: Token, value: Box<Expression> },
    Super { keyword: Token, method: Token },
    This { keyword: Token },
    Unary { operator: Token, right: Box<Expression> },
    Variable { name: Token },
}

impl Expression {
    /// Whether the tree can be rendered: it is made of binary and unary
    /// expressions, groups and literals, and each literal token carries a
    /// payload.
    pub open spec fn printable(self) -> bool
        decreases self,
    {
        match self {
            Expression::Binary { left, operator, right } => left.printable() && right.printable(),
            Expression::Grouping { expr } => expr.printable(),
            Expression::Literal { value } => value.literal is Some,
            Expression::Unary { operator, right } => right.printable(),
            _ => false,
        }
    }

    /// The rendering of a printable tree, in prefix notation: a binary
    /// expression as `(+ 1 2)`, a group as `(group 1)`, a unary expression
    /// as `(-, 1)`, a literal as its payload.
    pub open spec fn text(self) -> Seq<char>
        decreases self,
    {
        match self {
            Expression::Binary { left, operator, right } => "("@ + operator.text() + " "@
                + left.text() + " "@ + right.text() + ")"@,
            Expression::Grouping { expr } => "(group "@ + expr.text() + ")"@,
            Expression::Literal { value } => value.text(),
            Expression::Unary { operator, right } => "("@ + operator.lexeme@ + ", "@
                + right.text() + ")"@,
            _ => Seq::empty(),
        }
    }

    /// Whether the tree can be rendered.
    pub fn is_printable(&self) -> (yes: bool)
        ensures
            yes == self.printable(),
        decreases self,
    {
        match self {
            Expression::Binary { left, operator, right } => left.is_printable()
                && right.is_printable(),
            Expression::Grouping { expr } => expr.is_printable(),
            Expression::Literal { value } => value.literal.is_some(),
            Expression::Unary { operator, right } => right.is_printable(),
            _ => false,
        }
    }

    /// Renders the tree in prefix notation.
    pub fn to_text(&self) -> (out: String)
        requires
            self.printable(),
        ensures
            out@ == self.text(),
        decreases self,
    {
        match self {
            Expression::Binary { left, operator, right } => {
                let mut out = String::from_str("(");
                out.append(operator.to_text().as_str());
                out.append(" ");
                out.append(left.to_text().as_str());
                out.append(" ");
                out.append(right.to_text().as_str());
                out.append(")");
                out
            },
            Expression::Grouping { expr } => {
                let mut out = String::from_str("(group ");
                out.append(expr.to_text().as_str());
                out.append(")");
                out
            },
            Expression::Literal { value } => value.to_text(),
            Expression::Unary { operator, right } => {
                let mut out = String::from_str("(");
                out.append(operator.lexeme.as_str());
                out.append(", ");
                out.append(right.to_text().as_str());
                out.append(")");
                out
            },
            _ => String::new(),
        }
    }
}

/// Something that walks a tree and gives a `T` for it.
pub trait Visitor<T> {
    /// Whether the tree can be walked.
    spec fn visitable(&self) -> bool;

    /// Walks the tree.
    fn visit(&self) -> (out: T)
        requires
            self.visitable(),
    ;
}

impl Visitor<String> for Expression {
    open spec fn visitable(&self) -> bool {
        self.printable()
    }

    /// Renders the tree in prefix notation.
    fn visit(&self) -> (out: String)
        ensures
            out@ == self.text(),
    {
        self.to_text()
    }
}

} // verus!
