//! The mathematical model of parsing: what the expression at a position of
//! a token sequence is, or which errors it gives, and where the cursor
//! stands afterwards.

use crate::ast::Expression;
use crate::interpreter::Error;
use crate::token::Token;
use crate::tokentype::TokenType;
use vstd::prelude::*;

verus! {

/// A token sequence that a parser can walk: not empty, and ended by the end
/// token.
pub open spec fn ends_with_eof(tokens: Seq<Token>) -> bool {
    tokens.len() > 0 && tokens.last().kind is Eof
}

/// Whether the token at `pos` is the end token.
pub open spec fn at_end(tokens: Seq<Token>, pos: int) -> bool {
    tokens[pos].kind is Eof
}

/// The position after one step of the cursor: the next one, but for the
/// end token, on which the cursor stays.
pub open spec fn advanced(tokens: Seq<Token>, pos: int) -> int {
    if at_end(tokens, pos) {
        pos
    } else {
        pos + 1
    }
}

/// The keywords with which a statement starts.
pub open spec fn starts_statement(kind: TokenType) -> bool {
    kind is Class || kind is Fun || kind is Var || kind is For || kind is If || kind is While
        || kind is Print || kind is Return
}

/// Whether `pos` is a place at which parsing may start again after an
/// error: the end of the tokens, the token behind a semicolon, or a keyword
/// that starts a statement.
pub open spec fn is_boundary(tokens: Seq<Token>, pos: int) -> bool {
    ||| at_end(tokens, pos)
    ||| (pos >= 1 && tokens[pos - 1].kind is Semicolon)
    ||| starts_statement(tokens[pos].kind)
}

/// The first boundary at or behind `pos`.
pub open spec fn next_boundary(tokens: Seq<Token>, pos: int) -> int
    decreases tokens.len() - pos,
{
    if pos < 0 || pos >= tokens.len() - 1 || is_boundary(tokens, pos) {
        pos
    } else {
        next_boundary(tokens, pos + 1)
    }
}

/// Where synchronization leaves a cursor that stood at `pos`: one step on,
/// and from there at the first boundary.
pub open spec fn synchronized(tokens: Seq<Token>, pos: int) -> int {
    next_boundary(tokens, advanced(tokens, pos))
}

/// The four levels of binary operators, from the loosest to the tightest.
#[derive(Clone, Copy)]
pub enum Level {
    Equality,
    Comparison,
    Term,
    Factor,
}

impl Level {
    /// Whether a token of `kind` is an operator of this level.
    pub open spec fn has_operator(self, kind: TokenType) -> bool {
        match self {
            Level::Equality => kind is BangEqual || kind is EqualEqual,
            Level::Comparison => kind is Greater || kind is GreaterEqual || kind is Less
                || kind is LessEqual,
            Level::Term => kind is Minus || kind is Plus,
            Level::Factor => kind is Slash || kind is Star,
        }
    }

    /// The height of the level above the unary expressions.
    pub open spec fn rank(self) -> nat {
        match self {
            Level::Equality => 4,
            Level::Comparison => 3,
            Level::Term => 2,
            Level::Factor => 1,
        }
    }
}

/// Whether a token of `kind` is an expression by itself.
pub open spec fn is_literal_kind(kind: TokenType) -> bool {
    kind is False || kind is True || kind is Nil || kind is Number || kind is String
}

/// How a parse ends: with a tree or with the errors found, and with the
/// cursor at `next`.
pub struct Parsed {
    pub outcome: Result<Expression, Seq<Error>>,
    pub next: int,
}

/// A parse that failed with `errors`.
pub open spec fn failed(errors: Seq<Error>, next: int) -> Parsed {
    Parsed { outcome: Err(errors), next }
}

/// A parse that gave `tree`.
pub open spec fn parsed(tree: Expression, next: int) -> Parsed {
    Parsed { outcome: Ok(tree), next }
}

/// The parse `inner` of what starts at `pos`, with its end held between
/// `pos` and the end of the tokens. No parse ends elsewhere, so this changes
/// none; it lets the definitions below be read as terminating.
pub open spec fn bounded(tokens: Seq<Token>, pos: int, inner: Parsed) -> Parsed {
    Parsed {
        outcome: inner.outcome,
        next: if inner.next <= pos || pos >= tokens.len() {
            pos
        } else if inner.next > tokens.len() {
            tokens.len() as int
        } else {
            inner.next
        },
    }
}

/// The whole expression at `pos`: an expression of the loosest level.
pub open spec fn parse_expression(tokens: Seq<Token>, pos: int) -> Parsed
    decreases tokens.len() - pos, 10nat,
{
    parse_binary(tokens, pos, Level::Equality)
}

/// The expression of `level` at `pos`: a first operand, folded to the left
/// with every operator of the level and its operand that follow. Where the
/// first operand fails, parsing starts again behind the next boundary, and
/// the errors of both attempts are the result.
pub open spec fn parse_binary(tokens: Seq<Token>, pos: int, level: Level) -> Parsed
    decreases tokens.len() - pos, 2 * level.rank() + 1,
{
    let first = bounded(tokens, pos, parse_operand(tokens, pos, level));
    match first.outcome {
        Ok(left) => parse_rest(tokens, first.next, level, left),
        Err(errors) => recover(tokens, first.next, errors),
    }
}

/// An operand of `level` at `pos`: an expression of the next tighter
/// level.
pub open spec fn parse_operand(tokens: Seq<Token>, pos: int, level: Level) -> Parsed
    decreases tokens.len() - pos, 2 * level.rank(),
{
    match level {
        Level::Equality => parse_binary(tokens, pos, Level::Comparison),
        Level::Comparison => parse_binary(tokens, pos, Level::Term),
        Level::Term => parse_binary(tokens, pos, Level::Factor),
        Level::Factor => parse_unary(tokens, pos),
    }
}

/// What follows the operand `left` of `level` that ends at `pos`: while an
/// operator of the level stands at the cursor, it and its right operand
/// make, with what was read before, the new left operand. An operand that
/// fails ends the parse with its errors.
pub open spec fn parse_rest(tokens: Seq<Token>, pos: int, level: Level, left: Expression) -> Parsed
    decreases tokens.len() - pos, 0nat,
{
    if 0 <= pos < tokens.len() && level.has_operator(tokens[pos].kind) {
        let right = bounded(tokens, pos + 1, parse_operand(tokens, pos + 1, level));
        match right.outcome {
            Ok(operand) => parse_rest(
                tokens,
                right.next,
                level,
                Expression::Binary {
                    left: Box::new(left),
                    operator: tokens[pos],
                    right: Box::new(operand),
                },
            ),
            Err(errors) => failed(errors, right.next),
        }
    } else {
        parsed(left, pos)
    }
}

/// What becomes of a failure with `errors` that left the cursor at `pos`:
/// the cursor is synchronized, and unless that exhausts the tokens, the
/// expression that starts there is parsed; its errors, if any, follow
/// `errors`, and its tree is dropped.
pub open spec fn recover(tokens: Seq<Token>, pos: int, errors: Seq<Error>) -> Parsed
    decreases tokens.len() - pos, 0nat,
{
    let restart = synchronized(tokens, pos);
    if pos < 0 || pos >= tokens.len() || at_end(tokens, restart) {
        failed(errors, restart)
    } else {
        proof {
            lemma_synchronized_bounds(tokens, pos);
        }
        let again = parse_expression(tokens, restart);
        match again.outcome {
            Ok(_) => failed(errors, again.next),
            Err(more) => failed(errors + more, again.next),
        }
    }
}

/// The unary expression at `pos`: any number of `!` and `-`, each applied
/// to what follows it, before a primary expression.
pub open spec fn parse_unary(tokens: Seq<Token>, pos: int) -> Parsed
    decreases tokens.len() - pos, 1nat,
{
    if 0 <= pos < tokens.len() && (tokens[pos].kind is Bang || tokens[pos].kind is Minus) {
        let right = parse_unary(tokens, pos + 1);
        match right.outcome {
            Ok(operand) => parsed(
                Expression::Unary { operator: tokens[pos], right: Box::new(operand) },
                right.next,
            ),
            Err(errors) => right,
        }
    } else {
        parse_primary(tokens, pos)
    }
}

/// The primary expression at `pos`: a literal token, or an expression
/// between parentheses. Any other token is unexpected and is not passed.
pub open spec fn parse_primary(tokens: Seq<Token>, pos: int) -> Parsed
    decreases tokens.len() - pos, 0nat,
{
    if pos < 0 || pos >= tokens.len() {
        failed(Seq::empty(), pos)
    } else if is_literal_kind(tokens[pos].kind) {
        parsed(Expression::Literal { value: tokens[pos] }, pos + 1)
    } else if tokens[pos].kind is LeftParen {
        let inner = parse_expression(tokens, pos + 1);
        match inner.outcome {
            Ok(expr) => if 0 <= inner.next < tokens.len() && tokens[inner.next].kind
                is RightParen {
                parsed(Expression::Grouping { expr: Box::new(expr) }, inner.next + 1)
            } else {
                failed(seq![Error::MissingToken(TokenType::RightParen)], inner.next)
            },
            Err(errors) => inner,
        }
    } else {
        failed(seq![Error::UnexpectedToken(tokens[pos])], pos)
    }
}

/// One turn of the fold: behind an operator of the level at `pos`, the
/// right operand either fails, and the level with it, or joins what was
/// read before as the new left operand.
pub proof fn lemma_rest_unfolds(tokens: Seq<Token>, pos: int, level: Level, left: Expression)
    requires
        0 <= pos < tokens.len(),
        level.has_operator(tokens[pos].kind),
        pos + 1 <= parse_operand(tokens, pos + 1, level).next <= tokens.len(),
    ensures
        parse_rest(tokens, pos, level, left) == match parse_operand(
            tokens,
            pos + 1,
            level,
        ).outcome {
            Ok(operand) => parse_rest(
                tokens,
                parse_operand(tokens, pos + 1, level).next,
                level,
                Expression::Binary {
                    left: Box::new(left),
                    operator: tokens[pos],
                    right: Box::new(operand),
                },
            ),
            Err(errors) => failed(errors, parse_operand(tokens, pos + 1, level).next),
        },
{
    let right = parse_operand(tokens, pos + 1, level);
    assert(bounded(tokens, pos + 1, right) == right);
}

/// The first boundary lies at or behind the position it is sought from,
/// and not behind the last token.
pub proof fn lemma_next_boundary_bounds(tokens: Seq<Token>, pos: int)
    requires
        0 <= pos < tokens.len(),
    ensures
        pos <= next_boundary(tokens, pos) < tokens.len(),
    decreases tokens.len() - pos,
{
    if !(pos >= tokens.len() - 1 || is_boundary(tokens, pos)) {
        lemma_next_boundary_bounds(tokens, pos + 1);
    }
}

/// Synchronization moves the cursor forward, by one token at least unless
/// it stands on the end token, and not behind the last token.
pub proof fn lemma_synchronized_bounds(tokens: Seq<Token>, pos: int)
    requires
        0 <= pos < tokens.len(),
    ensures
        pos <= synchronized(tokens, pos) <= tokens.len(),
        !at_end(tokens, pos) ==> pos < synchronized(tokens, pos),
        ends_with_eof(tokens) ==> synchronized(tokens, pos) < tokens.len(),
{
    if at_end(tokens, pos) {
        lemma_next_boundary_bounds(tokens, pos);
    } else if pos + 1 < tokens.len() {
        lemma_next_boundary_bounds(tokens, pos + 1);
    }
}

/// The first boundary is a boundary, and no position between where it is
/// sought from and it is one.
pub proof fn lemma_next_boundary_is_first(tokens: Seq<Token>, pos: int)
    requires
        ends_with_eof(tokens),
        0 <= pos < tokens.len(),
    ensures
        is_boundary(tokens, next_boundary(tokens, pos)),
        forall|k: int| pos <= k < next_boundary(tokens, pos) ==> !is_boundary(tokens, k),
    decreases tokens.len() - pos,
{
    if !(pos >= tokens.len() - 1 || is_boundary(tokens, pos)) {
        lemma_next_boundary_is_first(tokens, pos + 1);
    }
}

/// Synchronization stops at the first place, at least one token on, that
/// lies behind a semicolon, before a keyword that starts a statement, or at
/// the end of the tokens.
pub proof fn lemma_synchronized_is_first_boundary(tokens: Seq<Token>, pos: int)
    requires
        ends_with_eof(tokens),
        0 <= pos < tokens.len(),
    ensures
        is_boundary(tokens, synchronized(tokens, pos)),
        forall|k: int|
            advanced(tokens, pos) <= k < synchronized(tokens, pos) ==> !is_boundary(tokens, k),
{
    lemma_next_boundary_is_first(tokens, advanced(tokens, pos));
}

/// The number of tokens that a tree is written with, parentheses counted.
pub open spec fn width(tree: Expression) -> nat
    decreases tree,
{
    match tree {
        Expression::Literal { value } => 1,
        Expression::Grouping { expr } => 2 + width(*expr),
        Expression::Unary { operator, right } => 1 + width(*right),
        Expression::Binary { left, operator, right } => width(*left) + 1 + width(*right),
        _ => 0,
    }
}

/// Whether `tree` is written in `tokens` from `from` on: each of its
/// tokens stands at its place, in the order of the tree, and each group
/// between its parentheses.
pub open spec fn reads(tokens: Seq<Token>, from: int, tree: Expression) -> bool
    decreases tree,
{
    match tree {
        Expression::Literal { value } => 0 <= from < tokens.len() && tokens[from] == value,
        Expression::Grouping { expr } => {
            &&& 0 <= from && from + 1 + width(*expr) < tokens.len()
            &&& tokens[from].kind is LeftParen
            &&& reads(tokens, from + 1, *expr)
            &&& tokens[from + 1 + width(*expr)].kind is RightParen
        },
        Expression::Unary { operator, right } => {
            &&& 0 <= from < tokens.len()
            &&& tokens[from] == operator
            &&& reads(tokens, from + 1, *right)
        },
        Expression::Binary { left, operator, right } => {
            &&& 0 <= from && from + width(*left) < tokens.len()
            &&& reads(tokens, from, *left)
            &&& tokens[from + width(*left)] == operator
            &&& reads(tokens, from + width(*left) + 1, *right)
        },
        _ => false,
    }
}

/// How loosely the root of a tree binds: 0 for a literal or a group, 1 for
/// a unary expression, 2 to 5 for a binary expression of the tightest to
/// the loosest level. What the parser never builds counts 6.
pub open spec fn looseness(tree: Expression) -> nat {
    match tree {
        Expression::Literal { value } => 0,
        Expression::Grouping { expr } => 0,
        Expression::Unary { operator, right } => 1,
        Expression::Binary { left, operator, right } => if Level::Factor.has_operator(
            operator.kind,
        ) {
            2
        } else if Level::Term.has_operator(operator.kind) {
            3
        } else if Level::Comparison.has_operator(operator.kind) {
            4
        } else if Level::Equality.has_operator(operator.kind) {
            5
        } else {
            6
        },
        _ => 6,
    }
}

/// Whether a tree has the shape that precedence and associativity give it:
/// a literal is a literal token, a unary operator applies to a unary or a
/// primary expression, and in a binary expression the left operand binds
/// no looser than the operator, the right operand tighter. A group holds
/// any well-shaped tree.
pub open spec fn well_shaped(tree: Expression) -> bool
    decreases tree,
{
    match tree {
        Expression::Literal { value } => is_literal_kind(value.kind),
        Expression::Grouping { expr } => well_shaped(*expr),
        Expression::Unary { operator, right } => {
            &&& operator.kind is Bang || operator.kind is Minus
            &&& well_shaped(*right)
            &&& looseness(*right) <= 1
        },
        Expression::Binary { left, operator, right } => {
            &&& looseness(tree) <= 5
            &&& well_shaped(*left)
            &&& looseness(*left) <= looseness(tree)
            &&& well_shaped(*right)
            &&& looseness(*right) < looseness(tree)
        },
        _ => false,
    }
}

/// Whether a token of `kind` ends an expression of the given looseness: it
/// is no operator with which such an expression would go on.
pub open spec fn ends_expression(kind: TokenType, looseness: nat) -> bool {
    &&& looseness >= 2 ==> !Level::Factor.has_operator(kind)
    &&& looseness >= 3 ==> !Level::Term.has_operator(kind)
    &&& looseness >= 4 ==> !Level::Comparison.has_operator(kind)
    &&& looseness >= 5 ==> !Level::Equality.has_operator(kind)
}

/// Whether `errors` starts with `first`.
pub open spec fn starts_with(errors: Seq<Error>, first: Seq<Error>) -> bool {
    first.len() <= errors.len() && errors.subrange(0, first.len() as int) == first
}

/// What holds of every parse that starts at `pos` and may give a tree of
/// at most the given looseness. The cursor has moved forward and stands on
/// a token. A tree is written in the tokens from `pos` to the cursor, has
/// the shape that precedence gives it, and ends where the expression
/// cannot go on. A failure names at least one error.
pub open spec fn sound(tokens: Seq<Token>, pos: int, parse: Parsed, looseness: nat) -> bool {
    &&& pos <= parse.next < tokens.len()
    &&& match parse.outcome {
        Ok(tree) => {
            &&& reads(tokens, pos, tree)
            &&& parse.next == pos + width(tree)
            &&& width(tree) >= 1
            &&& well_shaped(tree)
            &&& self::looseness(tree) <= looseness
            &&& ends_expression(tokens[parse.next].kind, looseness)
        },
        Err(errors) => errors.len() >= 1,
    }
}

/// Every primary expression is sound.
pub proof fn lemma_primary_sound(tokens: Seq<Token>, pos: int)
    requires
        ends_with_eof(tokens),
        0 <= pos < tokens.len(),
    ensures
        sound(tokens, pos, parse_primary(tokens, pos), 0),
    decreases tokens.len() - pos, 0nat,
{
    if !is_literal_kind(tokens[pos].kind) && tokens[pos].kind is LeftParen {
        lemma_expression_sound(tokens, pos + 1);
    }
}

/// Every unary expression is sound.
pub proof fn lemma_unary_sound(tokens: Seq<Token>, pos: int)
    requires
        ends_with_eof(tokens),
        0 <= pos < tokens.len(),
    ensures
        sound(tokens, pos, parse_unary(tokens, pos), 1),
    decreases tokens.len() - pos, 1nat,
{
    if tokens[pos].kind is Bang || tokens[pos].kind is Minus {
        lemma_unary_sound(tokens, pos + 1);
    } else {
        lemma_primary_sound(tokens, pos);
    }
}

/// Every operand of a level is sound, and binds tighter than the level.
pub proof fn lemma_operand_sound(tokens: Seq<Token>, pos: int, level: Level)
    requires
        ends_with_eof(tokens),
        0 <= pos < tokens.len(),
    ensures
        sound(tokens, pos, parse_operand(tokens, pos, level), level.rank()),
        bounded(tokens, pos, parse_operand(tokens, pos, level)) == parse_operand(
            tokens,
            pos,
            level,
        ),
    decreases tokens.len() - pos, 2 * level.rank(),
{
    match level {
        Level::Equality => lemma_binary_sound(tokens, pos, Level::Comparison),
        Level::Comparison => lemma_binary_sound(tokens, pos, Level::Term),
        Level::Term => lemma_binary_sound(tokens, pos, Level::Factor),
        Level::Factor => lemma_unary_sound(tokens, pos),
    }
}

/// Every expression of a binary level is sound.
pub proof fn lemma_binary_sound(tokens: Seq<Token>, pos: int, level: Level)
    requires
        ends_with_eof(tokens),
        0 <= pos < tokens.len(),
    ensures
        sound(tokens, pos, parse_binary(tokens, pos, level), level.rank() + 1),
    decreases tokens.len() - pos, 2 * level.rank() + 1,
{
    lemma_operand_sound(tokens, pos, level);
    let first = parse_operand(tokens, pos, level);
    match first.outcome {
        Ok(left) => lemma_rest_sound(tokens, pos, first.next, level, left),
        Err(errors) => lemma_recover_sound(tokens, first.next, errors),
    }
}

/// Folding keeps soundness: where `left` is a well-shaped tree of the
/// level, written in the tokens from `start` to `pos`, what the fold makes
/// of it is a sound parse from `start`.
pub proof fn lemma_rest_sound(
    tokens: Seq<Token>,
    start: int,
    pos: int,
    level: Level,
    left: Expression,
)
    requires
        ends_with_eof(tokens),
        0 <= start <= pos < tokens.len(),
        reads(tokens, start, left),
        pos == start + width(left),
        width(left) >= 1,
        well_shaped(left),
        looseness(left) <= level.rank() + 1,
        ends_expression(tokens[pos].kind, level.rank()),
    ensures
        sound(tokens, start, parse_rest(tokens, pos, level, left), level.rank() + 1),
        pos <= parse_rest(tokens, pos, level, left).next,
    decreases tokens.len() - pos, 0nat,
{
    if level.has_operator(tokens[pos].kind) {
        lemma_operand_sound(tokens, pos + 1, level);
        let right = parse_operand(tokens, pos + 1, level);
        match right.outcome {
            Ok(operand) => {
                let tree = Expression::Binary {
                    left: Box::new(left),
                    operator: tokens[pos],
                    right: Box::new(operand),
                };
                assert(looseness(tree) == level.rank() + 1);
                lemma_rest_sound(tokens, start, right.next, level, tree);
            },
            Err(errors) => {},
        }
    }
}

/// Recovery keeps the errors it was given, in front of any it finds, and
/// leaves the cursor on a token.
pub proof fn lemma_recover_sound(tokens: Seq<Token>, pos: int, errors: Seq<Error>)
    requires
        ends_with_eof(tokens),
        0 <= pos < tokens.len(),
        errors.len() >= 1,
    ensures
        pos <= recover(tokens, pos, errors).next < tokens.len(),
        recover(tokens, pos, errors).outcome matches Err(all) && starts_with(all, errors),
    decreases tokens.len() - pos, 0nat,
{
    lemma_synchronized_bounds(tokens, pos);
    let restart = synchronized(tokens, pos);
    if !at_end(tokens, restart) {
        lemma_expression_sound(tokens, restart);
        let again = parse_expression(tokens, restart);
        match again.outcome {
            Ok(_) => {
                assert(errors.subrange(0, errors.len() as int) =~= errors);
            },
            Err(more) => {
                assert((errors + more).subrange(0, errors.len() as int) =~= errors);
            },
        }
    } else {
        assert(errors.subrange(0, errors.len() as int) =~= errors);
    }
}

/// Every expression is sound: the parser's cursor only moves forward and
/// never leaves the tokens, a tree it gives is written in the tokens it
/// has passed and shaped by precedence, and a failure names an error.
pub proof fn lemma_expression_sound(tokens: Seq<Token>, pos: int)
    requires
        ends_with_eof(tokens),
        0 <= pos < tokens.len(),
    ensures
        sound(tokens, pos, parse_expression(tokens, pos), Level::Equality.rank() + 1),
    decreases tokens.len() - pos, 10nat,
{
    lemma_binary_sound(tokens, pos, Level::Equality);
}

/// A list of errors starts with any list that a list it starts with
/// starts with.
pub proof fn lemma_starts_with_transitive(all: Seq<Error>, some: Seq<Error>, first: Seq<Error>)
    requires
        starts_with(all, some),
        starts_with(some, first),
    ensures
        starts_with(all, first),
{
    assert(all.subrange(0, first.len() as int) =~= all.subrange(0, some.len() as int).subrange(
        0,
        first.len() as int,
    ));
}

/// The errors with which a level fails are kept, in front, by the looser
/// levels that start at the same place: the whole expression fails, and
/// its errors start with those of the level.
pub proof fn lemma_errors_kept(tokens: Seq<Token>, pos: int, level: Level)
    requires
        ends_with_eof(tokens),
        0 <= pos < tokens.len(),
        parse_binary(tokens, pos, level).outcome is Err,
    ensures
        parse_expression(tokens, pos).outcome matches Err(all) && starts_with(
            all,
            parse_binary(tokens, pos, level).outcome->Err_0,
        ),
    decreases 4 - level.rank(),
{
    let errors = parse_binary(tokens, pos, level).outcome->Err_0;
    lemma_binary_sound(tokens, pos, level);
    match level {
        Level::Equality => {
            assert(errors.subrange(0, errors.len() as int) =~= errors);
        },
        _ => {
            let looser = match level {
                Level::Comparison => Level::Equality,
                Level::Term => Level::Comparison,
                _ => Level::Term,
            };
            let first = parse_operand(tokens, pos, looser);
            assert(first == parse_binary(tokens, pos, level));
            lemma_operand_sound(tokens, pos, looser);
            lemma_recover_sound(tokens, first.next, errors);
            lemma_errors_kept(tokens, pos, looser);
            lemma_starts_with_transitive(
                parse_expression(tokens, pos).outcome->Err_0,
                parse_binary(tokens, pos, looser).outcome->Err_0,
                errors,
            );
        },
    }
}

/// Two malformed expressions are both reported. Where the operand at `pos`
/// fails, synchronization from where it failed stops before the end of the
/// tokens, and the expression that starts there fails too, the level at
/// `pos` fails with the errors of the first followed by the errors of the
/// second, and the whole expression at `pos` fails with a list that starts
/// with these: with two errors at least.
pub proof fn lemma_both_reported(tokens: Seq<Token>, pos: int, level: Level)
    requires
        ends_with_eof(tokens),
        0 <= pos < tokens.len(),
        parse_operand(tokens, pos, level).outcome is Err,
        !at_end(tokens, synchronized(tokens, parse_operand(tokens, pos, level).next)),
        parse_expression(
            tokens,
            synchronized(tokens, parse_operand(tokens, pos, level).next),
        ).outcome is Err,
    ensures
        parse_binary(tokens, pos, level).outcome == Err::<Expression, Seq<Error>>(
            parse_operand(tokens, pos, level).outcome->Err_0 + parse_expression(
                tokens,
                synchronized(tokens, parse_operand(tokens, pos, level).next),
            ).outcome->Err_0,
        ),
        parse_expression(tokens, pos).outcome matches Err(all) && all.len() >= 2 && starts_with(
            all,
            parse_binary(tokens, pos, level).outcome->Err_0,
        ),
{
    lemma_operand_sound(tokens, pos, level);
    let first = parse_operand(tokens, pos, level);
    lemma_synchronized_bounds(tokens, first.next);
    lemma_expression_sound(tokens, synchronized(tokens, first.next));
    lemma_errors_kept(tokens, pos, level);
}

} // verus!
