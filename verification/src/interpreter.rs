//! The parser: a cursor over a token sequence that builds the expression
//! tree by recursive descent.

use crate::ast::Expression;
use crate::grammar::{
    advanced, at_end, ends_with_eof, lemma_expression_sound, lemma_rest_unfolds,
    lemma_synchronized_bounds, next_boundary, parse_binary, parse_expression, parse_primary,
    parse_rest, parse_unary, recover, sound, synchronized, Level, Parsed,
};
use crate::token::Token;
use crate::tokentype::TokenType;
use vstd::prelude::*;

verus! {

/// A syntax error.
#[derive(Debug)]
pub enum Error {
    /// The token of this kind was expected at the cursor and another stood
    /// there.
    MissingToken(TokenType),
    /// This token stood where an expression should start.
    UnexpectedToken(Token),
}

/// What a parser's result stands for: the tree, or the errors in order.
pub open spec fn outcome_of(result: Result<Expression, Vec<Error>>) -> Result<
    Expression,
    Seq<Error>,
> {
    match result {
        Ok(tree) => Ok(tree),
        Err(errors) => Err(errors@),
    }
}

/// Whether a parser that returned `result` and left its cursor at
/// `position` did what `model` says.
pub open spec fn agrees(result: Result<Expression, Vec<Error>>, position: int, model: Parsed)
    -> bool {
    outcome_of(result) == model.outcome && position == model.next
}

/// A cursor over a token sequence.
pub struct Interpreter {
    tokens: Vec<Token>,
    current: usize,
}

impl Interpreter {
    /// The tokens being parsed.
    pub closed spec fn stream(&self) -> Seq<Token> {
        self.tokens@
    }

    /// The position of the token under the cursor.
    pub closed spec fn position(&self) -> int {
        self.current as int
    }

    /// The tokens end with the end token, and the cursor stands on one of
    /// them.
    pub closed spec fn well_formed(&self) -> bool {
        ends_with_eof(self.tokens@) && self.current < self.tokens@.len()
    }

    /// A parser at the start of `tokens`.
    pub fn new(tokens: Vec<Token>) -> (parser: Interpreter)
        requires
            ends_with_eof(tokens@),
        ensures
            parser.well_formed(),
            parser.stream() == tokens@,
            parser.position() == 0,
    {
        Interpreter { tokens, current: 0 }
    }

    /// Parses the expression at the cursor: gives its tree, or every error
    /// found in it and in what was parsed to recover from them. The cursor
    /// is left behind the tokens that were read, which need not be all.
    pub fn parse(&mut self) -> (result: Result<Expression, Vec<Error>>)
        requires
            old(self).well_formed(),
        ensures
            final(self).well_formed(),
            final(self).stream() == old(self).stream(),
            agrees(
                result,
                final(self).position(),
                parse_expression(old(self).stream(), old(self).position()),
            ),
            sound(
                old(self).stream(),
                old(self).position(),
                parse_expression(old(self).stream(), old(self).position()),
                Level::Equality.rank() + 1,
            ),
    {
        proof {
            lemma_expression_sound(self.tokens@, self.current as int);
        }
        self.expression()
    }

    /// The expression at the cursor: an expression of the loosest level.
    fn expression(&mut self) -> (result: Result<Expression, Vec<Error>>)
        requires
            old(self).well_formed(),
        ensures
            final(self).well_formed(),
            final(self).stream() == old(self).stream(),
            old(self).position() <= final(self).position(),
            agrees(
                result,
                final(self).position(),
                parse_expression(old(self).stream(), old(self).position()),
            ),
        decreases old(self).tokens@.len() - old(self).current, 10nat,
    {
        self.equality()
    }

    /// Comparisons joined by `!=` and `==`.
    fn equality(&mut self) -> (result: Result<Expression, Vec<Error>>)
        requires
            old(self).well_formed(),
        ensures
            final(self).well_formed(),
            final(self).stream() == old(self).stream(),
            old(self).position() <= final(self).position(),
            agrees(
                result,
                final(self).position(),
                parse_binary(old(self).stream(), old(self).position(), Level::Equality),
            ),
        decreases old(self).tokens@.len() - old(self).current, 9nat,
    {
        let ghost start = self.current as int;
        // Where the left side is in error, look for errors in what follows.
        let mut res = match self.comparison() {
            Ok(expr) => expr,
            Err(errors) => {
                return self.recover(errors);
            },
        };
        while self.check_and_consume(&[TokenType::BangEqual, TokenType::EqualEqual])
            invariant
                self.well_formed(),
                self.tokens@ == old(self).tokens@,
                start <= self.current,
                start == old(self).current,
                parse_rest(self.tokens@, self.current as int, Level::Equality, res) == parse_binary(
                    self.tokens@,
                    start,
                    Level::Equality,
                ),
            decreases self.tokens@.len() - self.current,
        {
            let operator = self.previous().clone();
            // The left side is free of errors, so an error on the right
            // ends this level at once.
            let ghost at = self.current - 1;
            let ghost left = res;
            let right = match self.comparison() {
                Ok(expr) => expr,
                Err(errors) => {
                    proof {
                        lemma_rest_unfolds(self.tokens@, at, Level::Equality, left);
                    }
                    return Err(errors);
                },
            };
            res = Expression::Binary { left: Box::new(res), operator, right: Box::new(right) };
            proof {
                lemma_rest_unfolds(self.tokens@, at, Level::Equality, left);
            }
        }
        Ok(res)
    }

    /// Terms joined by `>`, `>=`, `<` and `<=`.
    fn comparison(&mut self) -> (result: Result<Expression, Vec<Error>>)
        requires
            old(self).well_formed(),
        ensures
            final(self).well_formed(),
            final(self).stream() == old(self).stream(),
            old(self).position() <= final(self).position(),
            agrees(
                result,
                final(self).position(),
                parse_binary(old(self).stream(), old(self).position(), Level::Comparison),
            ),
        decreases old(self).tokens@.len() - old(self).current, 7nat,
    {
        let ghost start = self.current as int;
        let mut res = match self.term() {
            Ok(expr) => expr,
            Err(errors) => {
                return self.recover(errors);
            },
        };
        while self.check_and_consume(
            &[
                TokenType::Greater,
                TokenType::GreaterEqual,
                TokenType::Less,
                TokenType::LessEqual,
            ],
        )
            invariant
                self.well_formed(),
                self.tokens@ == old(self).tokens@,
                start <= self.current,
                start == old(self).current,
                parse_rest(self.tokens@, self.current as int, Level::Comparison, res)
                    == parse_binary(self.tokens@, start, Level::Comparison),
            decreases self.tokens@.len() - self.current,
        {
            let operator = self.previous().clone();
            let ghost at = self.current - 1;
            let ghost left = res;
            let right = match self.term() {
                Ok(expr) => expr,
                Err(errors) => {
                    proof {
                        lemma_rest_unfolds(self.tokens@, at, Level::Comparison, left);
                    }
                    return Err(errors);
                },
            };
            res = Expression::Binary { left: Box::new(res), operator, right: Box::new(right) };
            proof {
                lemma_rest_unfolds(self.tokens@, at, Level::Comparison, left);
            }
        }
        Ok(res)
    }

    /// Factors joined by `-` and `+`.
    fn term(&mut self) -> (result: Result<Expression, Vec<Error>>)
        requires
            old(self).well_formed(),
        ensures
            final(self).well_formed(),
            final(self).stream() == old(self).stream(),
            old(self).position() <= final(self).position(),
            agrees(
                result,
                final(self).position(),
                parse_binary(old(self).stream(), old(self).position(), Level::Term),
            ),
        decreases old(self).tokens@.len() - old(self).current, 5nat,
    {
        let ghost start = self.current as int;
        let mut res = match self.factor() {
            Ok(expr) => expr,
            Err(errors) => {
                return self.recover(errors);
            },
        };
        while self.check_and_consume(&[TokenType::Minus, TokenType::Plus])
            invariant
                self.well_formed(),
                self.tokens@ == old(self).tokens@,
                start <= self.current,
                start == old(self).current,
                parse_rest(self.tokens@, self.current as int, Level::Term, res) == parse_binary(
                    self.tokens@,
                    start,
                    Level::Term,
                ),
            decreases self.tokens@.len() - self.current,
        {
            let operator = self.previous().clone();
            let ghost at = self.current - 1;
            let ghost left = res;
            let right = match self.factor() {
                Ok(expr) => expr,
                Err(errors) => {
                    proof {
                        lemma_rest_unfolds(self.tokens@, at, Level::Term, left);
                    }
                    return Err(errors);
                },
            };
            res = Expression::Binary { left: Box::new(res), operator, right: Box::new(right) };
            proof {
                lemma_rest_unfolds(self.tokens@, at, Level::Term, left);
            }
        }
        Ok(res)
    }

    /// Unary expressions joined by `/` and `*`.
    fn factor(&mut self) -> (result: Result<Expression, Vec<Error>>)
        requires
            old(self).well_formed(),
        ensures
            final(self).well_formed(),
            final(self).stream() == old(self).stream(),
            old(self).position() <= final(self).position(),
            agrees(
                result,
                final(self).position(),
                parse_binary(old(self).stream(), old(self).position(), Level::Factor),
            ),
        decreases old(self).tokens@.len() - old(self).current, 3nat,
    {
        let ghost start = self.current as int;
        let mut res = match self.unary() {
            Ok(expr) => expr,
            Err(errors) => {
                return self.recover(errors);
            },
        };
        while self.check_and_consume(&[TokenType::Slash, TokenType::Star])
            invariant
                self.well_formed(),
                self.tokens@ == old(self).tokens@,
                start <= self.current,
                start == old(self).current,
                parse_rest(self.tokens@, self.current as int, Level::Factor, res) == parse_binary(
                    self.tokens@,
                    start,
                    Level::Factor,
                ),
            decreases self.tokens@.len() - self.current,
        {
            let operator = self.previous().clone();
            let ghost at = self.current - 1;
            let ghost left = res;
            let right = match self.unary() {
                Ok(expr) => expr,
                Err(errors) => {
                    proof {
                        lemma_rest_unfolds(self.tokens@, at, Level::Factor, left);
                    }
                    return Err(errors);
                },
            };
            res = Expression::Binary { left: Box::new(res), operator, right: Box::new(right) };
            proof {
                lemma_rest_unfolds(self.tokens@, at, Level::Factor, left);
            }
        }
        Ok(res)
    }

    /// Moves to where parsing may start again and, unless the tokens are
    /// exhausted, parses the expression there to find its errors too.
    fn recover(&mut self, errors: Vec<Error>) -> (result: Result<Expression, Vec<Error>>)
        requires
            old(self).well_formed(),
        ensures
            final(self).well_formed(),
            final(self).stream() == old(self).stream(),
            old(self).position() <= final(self).position(),
            agrees(
                result,
                final(self).position(),
                recover(old(self).stream(), old(self).position(), errors@),
            ),
        decreases old(self).tokens@.len() - old(self).current, 0nat,
    {
        let mut errors = errors;
        proof {
            lemma_synchronized_bounds(self.tokens@, self.current as int);
        }
        self.synchronize();
        if self.is_at_end() {
            return Err(errors);
        }
        match self.expression() {
            Ok(_) => {},
            Err(more) => {
                let mut more = more;
                errors.append(&mut more);
            },
        }
        Err(errors)
    }

    /// A primary expression behind any number of `!` and `-`.
    fn unary(&mut self) -> (result: Result<Expression, Vec<Error>>)
        requires
            old(self).well_formed(),
        ensures
            final(self).well_formed(),
            final(self).stream() == old(self).stream(),
            old(self).position() <= final(self).position(),
            agrees(
                result,
                final(self).position(),
                parse_unary(old(self).stream(), old(self).position()),
            ),
        decreases old(self).tokens@.len() - old(self).current, 1nat,
    {
        if self.check_and_consume(&[TokenType::Bang, TokenType::Minus]) {
            let operator = self.previous().clone();
            let right = match self.unary() {
                Ok(expr) => expr,
                Err(errors) => {
                    return Err(errors);
                },
            };
            return Ok(Expression::Unary { operator, right: Box::new(right) });
        }
        self.primary()
    }

    /// A literal, or an expression between parentheses. Any other token is
    /// reported as unexpected and is not passed.
    fn primary(&mut self) -> (result: Result<Expression, Vec<Error>>)
        requires
            old(self).well_formed(),
        ensures
            final(self).well_formed(),
            final(self).stream() == old(self).stream(),
            old(self).position() <= final(self).position(),
            agrees(
                result,
                final(self).position(),
                parse_primary(old(self).stream(), old(self).position()),
            ),
        decreases old(self).tokens@.len() - old(self).current, 0nat,
    {
        if self.check_and_consume(&[TokenType::False]) {
            return Ok(Expression::Literal { value: self.previous().clone() });
        }
        if self.check_and_consume(&[TokenType::True]) {
            return Ok(Expression::Literal { value: self.previous().clone() });
        }
        if self.check_and_consume(&[TokenType::Nil]) {
            return Ok(Expression::Literal { value: self.previous().clone() });
        }
        if self.check_and_consume(&[TokenType::Number, TokenType::String]) {
            return Ok(Expression::Literal { value: self.previous().clone() });
        }
        if self.check_and_consume(&[TokenType::LeftParen]) {
            let expr = match self.expression() {
                Ok(expr) => expr,
                Err(errors) => {
                    return Err(errors);
                },
            };
            match self.consume(TokenType::RightParen) {
                Ok(_) => {},
                Err(errors) => {
                    return Err(errors);
                },
            }
            return Ok(Expression::Grouping { expr: Box::new(expr) });
        }
        let errors = vec![Error::UnexpectedToken(self.peek().clone())];
        assert(errors@ =~= seq![Error::UnexpectedToken(self.tokens@[self.current as int])]);
        Err(errors)
    }

    /// Whether the token under the cursor is of one of `token_types`; if
    /// so, the cursor moves past it.
    fn check_and_consume(&mut self, token_types: &[TokenType]) -> (matched: bool)
        requires
            old(self).well_formed(),
        ensures
            final(self).well_formed(),
            final(self).stream() == old(self).stream(),
            matched == (!at_end(old(self).stream(), old(self).position()) && token_types@.contains(
                old(self).stream()[old(self).position()].kind,
            )),
            final(self).position() == if matched {
                old(self).position() + 1
            } else {
                old(self).position()
            },
    {
        let mut i: usize = 0;
        while i < token_types.len()
            invariant
                self.well_formed(),
                self.tokens@ == old(self).tokens@,
                self.current == old(self).current,
                i <= token_types@.len(),
                forall|k: int|
                    0 <= k < i ==> at_end(self.tokens@, self.current as int) || token_types@[k]
                        != self.tokens@[self.current as int].kind,
            decreases token_types@.len() - i,
        {
            if self.check(&token_types[i]) {
                self.advance();
                return true;
            }
            i += 1;
        }
        false
    }

    /// Whether the token under the cursor is of `token_type`.
    fn check(&self, token_type: &TokenType) -> (same: bool)
        requires
            self.well_formed(),
        ensures
            same == (!at_end(self.stream(), self.position()) && self.stream()[self.position()].kind
                == *token_type),
    {
        if self.is_at_end() {
            return false;
        }
        self.peek().kind == *token_type
    }

    /// Moves past the token under the cursor if it is of the `expected`
    /// kind; fails, without moving, if it is not.
    fn consume(&mut self, expected: TokenType) -> (result: Result<&Token, Vec<Error>>)
        requires
            old(self).well_formed(),
        ensures
            final(self).well_formed(),
            final(self).stream() == old(self).stream(),
            match result {
                Ok(token) => {
                    &&& old(self).stream()[old(self).position()].kind == expected
                    &&& *token == old(self).stream()[old(self).position()]
                    &&& final(self).position() == advanced(
                        old(self).stream(),
                        old(self).position(),
                    )
                },
                Err(errors) => {
                    &&& old(self).stream()[old(self).position()].kind != expected
                    &&& errors@ == seq![Error::MissingToken(expected)]
                    &&& final(self).position() == old(self).position()
                },
            },
    {
        if self.peek().kind == expected {
            return Ok(self.advance());
        }
        let errors = vec![Error::MissingToken(expected)];
        assert(errors@ =~= seq![Error::MissingToken(expected)]);
        Err(errors)
    }

    /// Moves the cursor to where parsing may start again: one token on, and
    /// then to the first place behind a semicolon, before a keyword that
    /// starts a statement, or at the end of the tokens.
    fn synchronize(&mut self)
        requires
            old(self).well_formed(),
        ensures
            final(self).well_formed(),
            final(self).stream() == old(self).stream(),
            final(self).position() == synchronized(old(self).stream(), old(self).position()),
    {
        self.advance();
        while !self.is_at_end()
            invariant
                self.well_formed(),
                self.tokens@ == old(self).tokens@,
                self.current >= 1 || at_end(self.tokens@, self.current as int),
                next_boundary(self.tokens@, self.current as int) == synchronized(
                    old(self).tokens@,
                    old(self).current as int,
                ),
            decreases self.tokens@.len() - self.current,
        {
            if self.previous().kind == TokenType::Semicolon {
                return ;
            }
            match self.peek().kind {
                TokenType::Class => return ,
                TokenType::Fun => return ,
                TokenType::Var => return ,
                TokenType::For => return ,
                TokenType::If => return ,
                TokenType::While => return ,
                TokenType::Print => return ,
                TokenType::Return => return ,
                _ => (),
            }
            self.advance();
        }
    }

    /// Moves the cursor one token on, unless it stands on the end token,
    /// and gives the token it stood on.
    fn advance(&mut self) -> (token: &Token)
        requires
            old(self).well_formed(),
        ensures
            final(self).well_formed(),
            final(self).stream() == old(self).stream(),
            final(self).position() == advanced(old(self).stream(), old(self).position()),
            *token == old(self).stream()[old(self).position()],
    {
        if !self.is_at_end() {
            assert(self.current < self.tokens.len());
            self.current += 1;
            return self.previous();
        }
        self.peek()
    }

    /// The token under the cursor.
    fn peek(&self) -> (token: &Token)
        requires
            self.well_formed(),
        ensures
            *token == self.stream()[self.position()],
    {
        &self.tokens[self.current]
    }

    /// The token before the cursor.
    fn previous(&self) -> (token: &Token)
        requires
            self.well_formed(),
            self.position() >= 1,
        ensures
            *token == self.stream()[self.position() - 1],
    {
        &self.tokens[self.current - 1]
    }

    /// Whether the cursor stands on the end token.
    fn is_at_end(&self) -> (end: bool)
        requires
            self.well_formed(),
        ensures
            end == at_end(self.stream(), self.position()),
    {
        self.peek().kind == TokenType::Eof
    }
}

/// Parses the expression with which `tokens` start.
///
/// The result is the tree of that expression, or the errors found, of which
/// there is one at least. A tree is written in the tokens it was read from
/// and has the shape that precedence and associativity give it.
pub fn parse(tokens: Vec<Token>) -> (result: Result<Expression, Vec<Error>>)
    requires
        ends_with_eof(tokens@),
    ensures
        outcome_of(result) == parse_expression(tokens@, 0).outcome,
        sound(tokens@, 0, parse_expression(tokens@, 0), Level::Equality.rank() + 1),
{
    let mut parser = Interpreter::new(tokens);
    parser.parse()
}

} // verus!
