//! The grammar, as functions from a token sequence and a cursor to what a
//! parse from there yields. The executable parser is proved against these.
//!
//! From the loosest binding to the tightest: sums, factors (with implicit
//! multiplication before an identifier), prefix minus, right-associative
//! powers, and primaries with an optional unit suffix.

use vstd::prelude::*;
use crate::ast::{ExprView, StmtView};
use crate::symbol_table::function_key;
use crate::token::{TokenKind, TokenView};

verus! {

/// Why a token sequence is no program.
#[derive(Debug, Clone, Copy, PartialEq, Eq, Structural)]
pub enum ParseError {
    /// The token at `position` should have had the kind `expected`.
    UnexpectedToken { expected: TokenKind, position: usize },
    /// The head of a function declaration is no call whose arguments all are
    /// bare variables.
    InvalidFunctionParameterList,
}

/// The declarations known to a session, by key.
pub type Symbols = Map<Seq<char>, StmtView>;

/// An expression and the cursor behind it, or the error that stopped the
/// parse.
pub type Parsed = Result<(ExprView, nat), ParseError>;

/// A statement and the cursor behind it, or the error that stopped the parse.
pub type ParsedStmt = Result<(StmtView, nat), ParseError>;

/// How many tokens lie at and after `pos`.
pub open spec fn remaining(tokens: Seq<TokenView>, pos: nat) -> nat {
    if pos <= tokens.len() {
        (tokens.len() - pos) as nat
    } else {
        0
    }
}

/// Whether the cursor is past the last token or on an end-of-input marker.
pub open spec fn at_end(tokens: Seq<TokenView>, pos: nat) -> bool {
    pos >= tokens.len() || tokens[pos as int].kind == TokenKind::EOF
}

/// Whether there is a token of the kind `kind` at the cursor.
pub open spec fn has_kind(tokens: Seq<TokenView>, pos: nat, kind: TokenKind) -> bool {
    !at_end(tokens, pos) && tokens[pos as int].kind == kind
}

/// The error for a token at `pos` that is not of the kind `expected`.
pub open spec fn unexpected(expected: TokenKind, pos: nat) -> ParseError {
    ParseError::UnexpectedToken { expected, position: pos as usize }
}

/// Whether a function named `name` has been declared.
pub open spec fn knows_function(symbols: Symbols, name: Seq<char>) -> bool {
    symbols.contains_key(function_key(name))
}

/// `expr` closed by a token of the kind `kind` at `pos`.
pub open spec fn closed_by(tokens: Seq<TokenView>, pos: nat, kind: TokenKind, expr: ExprView) -> Parsed {
    if has_kind(tokens, pos, kind) {
        Ok((expr, pos + 1))
    } else {
        Err(unexpected(kind, pos))
    }
}

/// A parsed primary, wrapped in a unit node where a unit suffix follows it.
pub open spec fn with_unit(tokens: Seq<TokenView>, head: Parsed) -> Parsed {
    match head {
        Err(error) => Err(error),
        Ok((expr, next)) => if !at_end(tokens, next) && tokens[next as int].kind.spec_is_unit() {
            Ok((ExprView::Unit(Box::new(expr), tokens[next as int].kind), next + 1))
        } else {
            head
        },
    }
}

/// An expression: a sum.
pub open spec fn expr_at(tokens: Seq<TokenView>, symbols: Symbols, pos: nat) -> Parsed
    decreases remaining(tokens, pos), 8nat,
{
    sum_at(tokens, symbols, pos)
}

/// A sum: factors joined by `+` and `-`, grouped from the left.
pub open spec fn sum_at(tokens: Seq<TokenView>, symbols: Symbols, pos: nat) -> Parsed
    decreases remaining(tokens, pos), 7nat,
{
    match factor_at(tokens, symbols, pos) {
        Err(error) => Err(error),
        Ok((left, next)) => if next > pos {
            sum_tail(tokens, symbols, left, next)
        } else {
            Ok((left, next))
        },
    }
}

/// The rest of a sum whose operands so far make up `left`. The test that the
/// cursor has moved only serves to show that the definition ends; a parsed
/// operand always moves it (`lemma_expr_advances`).
pub open spec fn sum_tail(tokens: Seq<TokenView>, symbols: Symbols, left: ExprView, pos: nat) -> Parsed
    decreases remaining(tokens, pos), 6nat,
{
    if has_kind(tokens, pos, TokenKind::Plus) || has_kind(tokens, pos, TokenKind::Minus) {
        match factor_at(tokens, symbols, pos + 1) {
            Err(error) => Err(error),
            Ok((right, next)) => {
                let sum = ExprView::Binary(Box::new(left), tokens[pos as int].kind, Box::new(right));
                if next > pos {
                    sum_tail(tokens, symbols, sum, next)
                } else {
                    Ok((sum, next))
                }
            },
        }
    } else {
        Ok((left, pos))
    }
}

/// A factor: prefix expressions joined by `*` and `/`, grouped from the left.
/// An identifier where an operator could stand multiplies without one.
pub open spec fn factor_at(tokens: Seq<TokenView>, symbols: Symbols, pos: nat) -> Parsed
    decreases remaining(tokens, pos), 6nat,
{
    match unary_at(tokens, symbols, pos) {
        Err(error) => Err(error),
        Ok((left, next)) => if next > pos {
            factor_tail(tokens, symbols, left, next)
        } else {
            Ok((left, next))
        },
    }
}

/// The rest of a factor whose operands so far make up `left`.
pub open spec fn factor_tail(tokens: Seq<TokenView>, symbols: Symbols, left: ExprView, pos: nat) -> Parsed
    decreases remaining(tokens, pos), 5nat,
{
    if has_kind(tokens, pos, TokenKind::Star) || has_kind(tokens, pos, TokenKind::Slash) || has_kind(
        tokens,
        pos,
        TokenKind::Identifier,
    ) {
        let implicit = has_kind(tokens, pos, TokenKind::Identifier);
        let op = if implicit {
            TokenKind::Star
        } else {
            tokens[pos as int].kind
        };
        let operand_at = if implicit {
            pos
        } else {
            pos + 1
        };
        match unary_at(tokens, symbols, operand_at) {
            Err(error) => Err(error),
            Ok((right, next)) => {
                let product = ExprView::Binary(Box::new(left), op, Box::new(right));
                if next > pos {
                    factor_tail(tokens, symbols, product, next)
                } else {
                    Ok((product, next))
                }
            },
        }
    } else {
        Ok((left, pos))
    }
}

/// A prefix expression: any number of `-`, then a power.
pub open spec fn unary_at(tokens: Seq<TokenView>, symbols: Symbols, pos: nat) -> Parsed
    decreases remaining(tokens, pos), 4nat,
{
    if has_kind(tokens, pos, TokenKind::Minus) {
        match unary_at(tokens, symbols, pos + 1) {
            Err(error) => Err(error),
            Ok((operand, next)) => Ok((ExprView::Unary(TokenKind::Minus, Box::new(operand)), next)),
        }
    } else {
        exponent_at(tokens, symbols, pos)
    }
}

/// A power: a primary, raised by `^` to a power of its own where one follows.
pub open spec fn exponent_at(tokens: Seq<TokenView>, symbols: Symbols, pos: nat) -> Parsed
    decreases remaining(tokens, pos), 3nat,
{
    match primary_at(tokens, symbols, pos) {
        Err(error) => Err(error),
        Ok((base, next)) => if has_kind(tokens, next, TokenKind::Power) && next > pos {
            match exponent_at(tokens, symbols, next + 1) {
                Err(error) => Err(error),
                Ok((power, end)) => Ok(
                    (ExprView::Binary(Box::new(base), TokenKind::Power, Box::new(power)), end),
                ),
            }
        } else {
            Ok((base, next))
        },
    }
}

/// A primary: a group in parentheses, an absolute value between pipes, what
/// an identifier leads, or any other token read as a literal; then a unit
/// suffix where one follows. At the end of input there is none.
pub open spec fn primary_at(tokens: Seq<TokenView>, symbols: Symbols, pos: nat) -> Parsed
    decreases remaining(tokens, pos), 2nat,
{
    if at_end(tokens, pos) {
        Err(unexpected(TokenKind::Literal, pos))
    } else {
        with_unit(
            tokens,
            match tokens[pos as int].kind {
                TokenKind::OpenParenthesis => group_at(tokens, symbols, pos),
                TokenKind::Pipe => abs_at(tokens, symbols, pos),
                TokenKind::Identifier => identifier_at(tokens, symbols, pos),
                _ => Ok((ExprView::Literal(tokens[pos as int].value), pos + 1)),
            },
        )
    }
}

/// A group: an expression between parentheses.
pub open spec fn group_at(tokens: Seq<TokenView>, symbols: Symbols, pos: nat) -> Parsed
    decreases remaining(tokens, pos), 1nat,
{
    if !has_kind(tokens, pos, TokenKind::OpenParenthesis) {
        Err(unexpected(TokenKind::OpenParenthesis, pos))
    } else {
        match expr_at(tokens, symbols, pos + 1) {
            Err(error) => Err(error),
            Ok((inner, next)) => closed_by(
                tokens,
                next,
                TokenKind::ClosedParenthesis,
                ExprView::Group(Box::new(inner)),
            ),
        }
    }
}

/// An absolute value: an expression between pipes, read as a call of `abs`
/// on the group.
pub open spec fn abs_at(tokens: Seq<TokenView>, symbols: Symbols, pos: nat) -> Parsed
    decreases remaining(tokens, pos), 1nat,
{
    if !has_kind(tokens, pos, TokenKind::Pipe) {
        Err(unexpected(TokenKind::Pipe, pos))
    } else {
        match expr_at(tokens, symbols, pos + 1) {
            Err(error) => Err(error),
            Ok((inner, next)) => closed_by(
                tokens,
                next,
                TokenKind::Pipe,
                ExprView::FnCall("abs"@, seq![ExprView::Group(Box::new(inner))]),
            ),
        }
    }
}

/// What an identifier leads: a call of a known function on the literal that
/// follows it; else a call with an argument list in parentheses; else a
/// variable.
pub open spec fn identifier_at(tokens: Seq<TokenView>, symbols: Symbols, pos: nat) -> Parsed
    decreases remaining(tokens, pos), 1nat,
{
    let name = tokens[pos as int].value;
    if !has_kind(tokens, pos, TokenKind::Identifier) {
        Err(unexpected(TokenKind::Identifier, pos))
    } else if has_kind(tokens, pos + 1, TokenKind::Literal) && knows_function(symbols, name) {
        Ok((ExprView::FnCall(name, seq![ExprView::Literal(tokens[pos as int + 1].value)]), pos + 2))
    } else if has_kind(tokens, pos + 1, TokenKind::OpenParenthesis) {
        match expr_at(tokens, symbols, pos + 2) {
            Err(error) => Err(error),
            Ok((first, next)) => if next > pos {
                match arguments_tail(tokens, symbols, seq![first], next) {
                    Err(error) => Err(error),
                    Ok((arguments, end)) => closed_by(
                        tokens,
                        end,
                        TokenKind::ClosedParenthesis,
                        ExprView::FnCall(name, arguments),
                    ),
                }
            } else {
                Err(unexpected(TokenKind::ClosedParenthesis, next))
            },
        }
    } else {
        Ok((ExprView::Var(name), pos + 1))
    }
}

/// The rest of an argument list that holds `arguments` so far: further
/// expressions, each behind a comma.
pub open spec fn arguments_tail(
    tokens: Seq<TokenView>,
    symbols: Symbols,
    arguments: Seq<ExprView>,
    pos: nat,
) -> Result<(Seq<ExprView>, nat), ParseError>
    decreases remaining(tokens, pos), 0nat,
{
    if has_kind(tokens, pos, TokenKind::Comma) {
        match expr_at(tokens, symbols, pos + 1) {
            Err(error) => Err(error),
            Ok((argument, next)) => if next > pos {
                arguments_tail(tokens, symbols, arguments.push(argument), next)
            } else {
                Ok((arguments.push(argument), next))
            },
        }
    } else {
        Ok((arguments, pos))
    }
}

/// The names of `arguments`, where every one of them is a bare variable.
pub open spec fn parameter_names(arguments: Seq<ExprView>) -> Option<Seq<Seq<char>>> {
    if forall|i: int| 0 <= i < arguments.len() ==> arguments[i] is Var {
        Some(Seq::new(arguments.len(), |i: int| arguments[i]->Var_0))
    } else {
        None
    }
}

/// The declaration that a call-shaped `head` and a `body` make up: the call's
/// name, its arguments as parameter names, and the body.
pub open spec fn declaration_of(head: ExprView, body: ExprView) -> Result<StmtView, ParseError> {
    match head {
        ExprView::FnCall(name, arguments) => match parameter_names(arguments) {
            Some(names) => Ok(StmtView::FnDecl(name, names, body)),
            None => Err(ParseError::InvalidFunctionParameterList),
        },
        _ => Err(ParseError::InvalidFunctionParameterList),
    }
}

/// An expression as a statement.
pub open spec fn expression_statement_at(
    tokens: Seq<TokenView>,
    symbols: Symbols,
    pos: nat,
) -> ParsedStmt {
    match expr_at(tokens, symbols, pos) {
        Err(error) => Err(error),
        Ok((expr, next)) => Ok((StmtView::Expr(expr), next)),
    }
}

/// A variable declaration: the identifier at `pos`, `=`, and the value.
pub open spec fn variable_declaration_at(
    tokens: Seq<TokenView>,
    symbols: Symbols,
    pos: nat,
) -> ParsedStmt {
    match expr_at(tokens, symbols, pos + 2) {
        Err(error) => Err(error),
        Ok((value, next)) => Ok((StmtView::VarDecl(tokens[pos as int].value, value), next)),
    }
}

/// A statement that begins like a call: a function declaration where `=`
/// follows the call, else the expression that begins at the same cursor.
pub open spec fn call_or_declaration_at(
    tokens: Seq<TokenView>,
    symbols: Symbols,
    pos: nat,
) -> ParsedStmt {
    match primary_at(tokens, symbols, pos) {
        Err(error) => Err(error),
        Ok((head, next)) => if has_kind(tokens, next, TokenKind::Equals) {
            match expr_at(tokens, symbols, next + 1) {
                Err(error) => Err(error),
                Ok((body, end)) => match declaration_of(head, body) {
                    Err(error) => Err(error),
                    Ok(declaration) => Ok((declaration, end)),
                },
            }
        } else {
            expression_statement_at(tokens, symbols, pos)
        },
    }
}

/// One statement: told apart by the token behind a leading identifier.
pub open spec fn statement_at(tokens: Seq<TokenView>, symbols: Symbols, pos: nat) -> ParsedStmt {
    if has_kind(tokens, pos, TokenKind::Identifier) && has_kind(tokens, pos + 1, TokenKind::Equals) {
        variable_declaration_at(tokens, symbols, pos)
    } else if has_kind(tokens, pos, TokenKind::Identifier) && has_kind(
        tokens,
        pos + 1,
        TokenKind::OpenParenthesis,
    ) {
        call_or_declaration_at(tokens, symbols, pos)
    } else {
        expression_statement_at(tokens, symbols, pos)
    }
}

/// The symbols after `statement` has been parsed: a function declaration is
/// registered under the key of its name, nothing else changes them.
pub open spec fn registered(symbols: Symbols, statement: StmtView) -> Symbols {
    match statement {
        StmtView::FnDecl(name, _, _) => symbols.insert(function_key(name), statement),
        _ => symbols,
    }
}

/// What parsing a whole input yields: the statements or the first error, and
/// the symbols as the statements before that error left them.
pub struct Program {
    pub result: Result<Seq<StmtView>, ParseError>,
    pub symbols: Symbols,
}

/// The statements from `pos` up to the end of input, behind the statements
/// `done`. Each statement is parsed with the symbols that the ones before it
/// left.
pub open spec fn statements_from(
    tokens: Seq<TokenView>,
    symbols: Symbols,
    pos: nat,
    done: Seq<StmtView>,
) -> Program
    decreases remaining(tokens, pos),
{
    if at_end(tokens, pos) {
        Program { result: Ok(done), symbols }
    } else {
        match statement_at(tokens, symbols, pos) {
            Err(error) => Program { result: Err(error), symbols },
            Ok((statement, next)) => if next > pos {
                statements_from(tokens, registered(symbols, statement), next, done.push(statement))
            } else {
                Program { result: Ok(done.push(statement)), symbols: registered(symbols, statement) }
            },
        }
    }
}

/// What parsing `tokens` in a session that knows `symbols` yields.
pub open spec fn program(tokens: Seq<TokenView>, symbols: Symbols) -> Program {
    statements_from(tokens, symbols, 0, Seq::empty())
}

/// Whether a successful `parsed` ends behind `pos` and within the tokens.
pub open spec fn advances(parsed: Parsed, tokens: Seq<TokenView>, pos: nat) -> bool {
    parsed matches Ok((_, next)) ==> pos < next <= tokens.len()
}

/// Every parsed expression takes at least one token and ends within the
/// tokens: the cursor only moves forward.
pub proof fn lemma_expr_advances(tokens: Seq<TokenView>, symbols: Symbols, pos: nat)
    ensures
        advances(expr_at(tokens, symbols, pos), tokens, pos),
    decreases remaining(tokens, pos), 8nat,
{
    lemma_sum_advances(tokens, symbols, pos);
}

/// Every parsed sum takes at least one token and ends within the tokens.
pub proof fn lemma_sum_advances(tokens: Seq<TokenView>, symbols: Symbols, pos: nat)
    ensures
        advances(sum_at(tokens, symbols, pos), tokens, pos),
    decreases remaining(tokens, pos), 7nat,
{
    lemma_factor_advances(tokens, symbols, pos);
    match factor_at(tokens, symbols, pos) {
        Ok((left, next)) => {
            lemma_sum_tail_advances(tokens, symbols, left, next);
        },
        Err(_) => {},
    }
}

/// The rest of a sum ends at or behind its start and within the tokens.
pub proof fn lemma_sum_tail_advances(
    tokens: Seq<TokenView>,
    symbols: Symbols,
    left: ExprView,
    pos: nat,
)
    requires
        pos <= tokens.len(),
    ensures
        sum_tail(tokens, symbols, left, pos) matches Ok((_, next)) ==> pos <= next <= tokens.len(),
    decreases remaining(tokens, pos), 6nat,
{
    if has_kind(tokens, pos, TokenKind::Plus) || has_kind(tokens, pos, TokenKind::Minus) {
        lemma_factor_advances(tokens, symbols, pos + 1);
        match factor_at(tokens, symbols, pos + 1) {
            Ok((right, next)) => {
                let sum = ExprView::Binary(Box::new(left), tokens[pos as int].kind, Box::new(right));
                lemma_sum_tail_advances(tokens, symbols, sum, next);
            },
            Err(_) => {},
        }
    }
}

/// Every parsed factor takes at least one token and ends within the tokens.
pub proof fn lemma_factor_advances(tokens: Seq<TokenView>, symbols: Symbols, pos: nat)
    ensures
        advances(factor_at(tokens, symbols, pos), tokens, pos),
    decreases remaining(tokens, pos), 6nat,
{
    lemma_unary_advances(tokens, symbols, pos);
    match unary_at(tokens, symbols, pos) {
        Ok((left, next)) => {
            lemma_factor_tail_advances(tokens, symbols, left, next);
        },
        Err(_) => {},
    }
}

/// The rest of a factor ends at or behind its start and within the tokens.
pub proof fn lemma_factor_tail_advances(
    tokens: Seq<TokenView>,
    symbols: Symbols,
    left: ExprView,
    pos: nat,
)
    requires
        pos <= tokens.len(),
    ensures
        factor_tail(tokens, symbols, left, pos) matches Ok((_, next)) ==> pos <= next
            <= tokens.len(),
    decreases remaining(tokens, pos), 5nat,
{
    if has_kind(tokens, pos, TokenKind::Star) || has_kind(tokens, pos, TokenKind::Slash) || has_kind(
        tokens,
        pos,
        TokenKind::Identifier,
    ) {
        let implicit = has_kind(tokens, pos, TokenKind::Identifier);
        let op = if implicit {
            TokenKind::Star
        } else {
            tokens[pos as int].kind
        };
        let operand_at: nat = if implicit {
            pos
        } else {
            pos + 1
        };
        lemma_unary_advances(tokens, symbols, operand_at);
        match unary_at(tokens, symbols, operand_at) {
            Ok((right, next)) => {
                let product = ExprView::Binary(Box::new(left), op, Box::new(right));
                lemma_factor_tail_advances(tokens, symbols, product, next);
            },
            Err(_) => {},
        }
    }
}

/// Every parsed prefix expression takes at least one token and ends within
/// the tokens.
pub proof fn lemma_unary_advances(tokens: Seq<TokenView>, symbols: Symbols, pos: nat)
    ensures
        advances(unary_at(tokens, symbols, pos), tokens, pos),
    decreases remaining(tokens, pos), 4nat,
{
    if has_kind(tokens, pos, TokenKind::Minus) {
        lemma_unary_advances(tokens, symbols, pos + 1);
    } else {
        lemma_exponent_advances(tokens, symbols, pos);
    }
}

/// Every parsed power takes at least one token and ends within the tokens.
pub proof fn lemma_exponent_advances(tokens: Seq<TokenView>, symbols: Symbols, pos: nat)
    ensures
        advances(exponent_at(tokens, symbols, pos), tokens, pos),
    decreases remaining(tokens, pos), 3nat,
{
    lemma_primary_advances(tokens, symbols, pos);
    match primary_at(tokens, symbols, pos) {
        Ok((_, next)) => {
            if has_kind(tokens, next, TokenKind::Power) {
                lemma_exponent_advances(tokens, symbols, next + 1);
            }
        },
        Err(_) => {},
    }
}

/// Every parsed primary takes at least one token and ends within the tokens.
pub proof fn lemma_primary_advances(tokens: Seq<TokenView>, symbols: Symbols, pos: nat)
    ensures
        advances(primary_at(tokens, symbols, pos), tokens, pos),
    decreases remaining(tokens, pos), 2nat,
{
    if !at_end(tokens, pos) {
        match tokens[pos as int].kind {
            TokenKind::OpenParenthesis => {
                lemma_group_advances(tokens, symbols, pos);
            },
            TokenKind::Pipe => {
                lemma_abs_advances(tokens, symbols, pos);
            },
            TokenKind::Identifier => {
                lemma_identifier_advances(tokens, symbols, pos);
            },
            _ => {},
        }
    }
}

/// Every parsed group takes at least one token and ends within the tokens.
pub proof fn lemma_group_advances(tokens: Seq<TokenView>, symbols: Symbols, pos: nat)
    ensures
        advances(group_at(tokens, symbols, pos), tokens, pos),
    decreases remaining(tokens, pos), 1nat,
{
    if has_kind(tokens, pos, TokenKind::OpenParenthesis) {
        lemma_expr_advances(tokens, symbols, pos + 1);
    }
}

/// Every parsed absolute value takes at least one token and ends within the
/// tokens.
pub proof fn lemma_abs_advances(tokens: Seq<TokenView>, symbols: Symbols, pos: nat)
    ensures
        advances(abs_at(tokens, symbols, pos), tokens, pos),
    decreases remaining(tokens, pos), 1nat,
{
    if has_kind(tokens, pos, TokenKind::Pipe) {
        lemma_expr_advances(tokens, symbols, pos + 1);
    }
}

/// Whatever an identifier leads takes at least one token and ends within the
/// tokens.
pub proof fn lemma_identifier_advances(tokens: Seq<TokenView>, symbols: Symbols, pos: nat)
    ensures
        advances(identifier_at(tokens, symbols, pos), tokens, pos),
    decreases remaining(tokens, pos), 1nat,
{
    let name = tokens[pos as int].value;
    if !has_kind(tokens, pos, TokenKind::Identifier) {
    } else if has_kind(tokens, pos + 1, TokenKind::Literal) && knows_function(symbols, name) {
    } else if has_kind(tokens, pos + 1, TokenKind::OpenParenthesis) {
        lemma_expr_advances(tokens, symbols, pos + 2);
        match expr_at(tokens, symbols, pos + 2) {
            Ok((first, next)) => {
                lemma_arguments_tail_advances(tokens, symbols, seq![first], next);
            },
            Err(_) => {},
        }
    }
}

/// The rest of an argument list ends at or behind its start and within the
/// tokens.
pub proof fn lemma_arguments_tail_advances(
    tokens: Seq<TokenView>,
    symbols: Symbols,
    arguments: Seq<ExprView>,
    pos: nat,
)
    requires
        pos <= tokens.len(),
    ensures
        arguments_tail(tokens, symbols, arguments, pos) matches Ok((_, next)) ==> pos <= next
            <= tokens.len(),
    decreases remaining(tokens, pos), 0nat,
{
    if has_kind(tokens, pos, TokenKind::Comma) {
        lemma_expr_advances(tokens, symbols, pos + 1);
        match expr_at(tokens, symbols, pos + 1) {
            Ok((argument, next)) => {
                lemma_arguments_tail_advances(tokens, symbols, arguments.push(argument), next);
            },
            Err(_) => {},
        }
    }
}

/// Every parsed statement takes at least one token and ends within the
/// tokens.
pub proof fn lemma_statement_advances(tokens: Seq<TokenView>, symbols: Symbols, pos: nat)
    ensures
        statement_at(tokens, symbols, pos) matches Ok((_, next)) ==> pos < next <= tokens.len(),
{
    lemma_expr_advances(tokens, symbols, pos);
    lemma_expr_advances(tokens, symbols, pos + 2);
    lemma_primary_advances(tokens, symbols, pos);
    match primary_at(tokens, symbols, pos) {
        Ok((_, next)) => {
            lemma_expr_advances(tokens, symbols, next + 1);
        },
        Err(_) => {},
    }
}

/// A function is known once its declaration has been parsed: the symbols
/// that a declaration of `name` leaves map the key of `name` to it, so a
/// later statement or input can call the function, by an argument list or
/// next to a literal.
pub proof fn lemma_declaration_is_known(tokens: Seq<TokenView>, symbols: Symbols, pos: nat)
    ensures
        statement_at(tokens, symbols, pos) matches Ok((StmtView::FnDecl(name, parameters, body), _))
            ==> knows_function(
            registered(symbols, StmtView::FnDecl(name, parameters, body)),
            name,
        ) && registered(symbols, StmtView::FnDecl(name, parameters, body))[function_key(name)]
            == StmtView::FnDecl(name, parameters, body),
{
}

} // verus!
