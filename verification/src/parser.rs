//! The recursive-descent parser: from a token sequence to statements.

use vstd::prelude::*;
use vstd::string::*;
use crate::ast::{expr_views, lemma_call_view, stmt_views, string_views, ExprView, StmtView};
use crate::grammar::{
    abs_at, arguments_tail, at_end, call_or_declaration_at, expr_at, exponent_at, factor_at,
    factor_tail, group_at, has_kind, identifier_at, parameter_names, primary_at, program,
    registered, remaining, statement_at, statements_from, sum_at, sum_tail, unary_at, unexpected,
    variable_declaration_at, ParseError, Parsed, ParsedStmt, Symbols,
};
use crate::symbol_table::SymbolTable;
use crate::token::{Token, TokenKind, TokenView};

pub use crate::ast::{Expr, Stmt, Unit};

verus! {

/// The state of a parse session: the tokens of the input at hand, the cursor
/// into them, and the declarations of all inputs so far.
pub struct ParserContext {
    tokens: Vec<Token>,
    pos: usize,
    symbol_table: SymbolTable,
}

/// The views of a sequence of tokens, in order.
pub open spec fn token_views(tokens: Seq<Token>) -> Seq<TokenView> {
    Seq::new(tokens.len(), |i: int| tokens[i]@)
}

/// Whether `result` and the cursor `end` are what the grammar gives as
/// `expected`. After an error the cursor is left unspecified.
pub open spec fn yields(result: Result<Expr, ParseError>, end: nat, expected: Parsed) -> bool {
    match expected {
        Ok((expr, next)) => result matches Ok(e) && e@ == expr && end == next,
        Err(error) => result matches Err(e) && e == error,
    }
}

/// Whether `result` and the cursor `end` are what the grammar gives as
/// `expected` for a statement.
pub open spec fn yields_stmt(result: Result<Stmt, ParseError>, end: nat, expected: ParsedStmt) -> bool {
    match expected {
        Ok((statement, next)) => result matches Ok(s) && s@ == statement && end == next,
        Err(error) => result matches Err(e) && e == error,
    }
}

impl ParserContext {
    /// The tokens of the input at hand.
    pub closed spec fn tokens(self) -> Seq<TokenView> {
        token_views(self.tokens@)
    }

    /// The cursor: the index of the next token to read.
    pub closed spec fn position(self) -> nat {
        self.pos as nat
    }

    /// The declarations that the session knows.
    pub closed spec fn symbols(self) -> Symbols {
        self.symbol_table@
    }

    /// Whether `self` and `other` hold the same tokens and declarations.
    pub open spec fn same_session(self, other: ParserContext) -> bool {
        self.tokens() == other.tokens() && self.symbols() == other.symbols()
    }

    /// A fresh session: no tokens, no declarations.
    pub fn new() -> (context: ParserContext)
        ensures
            context.tokens() == Seq::<TokenView>::empty(),
            context.position() == 0,
            context.symbols() == Map::<Seq<char>, StmtView>::empty(),
    {
        let context = ParserContext { tokens: Vec::new(), pos: 0, symbol_table: SymbolTable::new() };
        assert(context.tokens() =~= Seq::<TokenView>::empty());
        context
    }

    /// The declarations that the session knows.
    pub fn symbol_table(&self) -> (table: &SymbolTable)
        ensures
            table@ == self.symbols(),
    {
        &self.symbol_table
    }

    /// Registers `value` under `key`, as an interpreter does for a variable.
    pub fn declare(&mut self, key: &str, value: Stmt)
        ensures
            final(self).symbols() == old(self).symbols().insert(key@, value@),
            final(self).tokens() == old(self).tokens(),
            final(self).position() == old(self).position(),
    {
        self.symbol_table.insert(key, value);
    }
}

/// Whether the cursor is past the last token or on an end-of-input marker.
fn is_at_end(context: &ParserContext) -> (end: bool)
    ensures
        end == at_end(context.tokens(), context.position()),
{
    context.pos >= context.tokens.len() || peek(context).kind.compare(&TokenKind::EOF)
}

/// The token at the cursor.
fn peek(context: &ParserContext) -> (token: &Token)
    requires
        context.position() < context.tokens().len(),
    ensures
        token@ == context.tokens()[context.position() as int],
{
    &context.tokens[context.pos]
}

/// The token behind the one at the cursor.
fn peek_next(context: &ParserContext) -> (token: &Token)
    requires
        context.position() + 1 < context.tokens().len(),
    ensures
        token@ == context.tokens()[context.position() as int + 1],
{
    assert(context.tokens().len() == context.tokens.len());
    &context.tokens[context.pos + 1]
}

/// The token before the cursor: the one read last.
fn previous(context: &ParserContext) -> (token: &Token)
    requires
        0 < context.position() <= context.tokens().len(),
    ensures
        token@ == context.tokens()[context.position() - 1],
{
    &context.tokens[context.pos - 1]
}

/// Whether the token at the cursor is of the kind `kind`. At the end of
/// input no kind matches.
fn match_token(context: &ParserContext, kind: TokenKind) -> (matched: bool)
    ensures
        matched == has_kind(context.tokens(), context.position(), kind),
{
    if is_at_end(context) {
        return false;
    }
    peek(context).kind.compare(&kind)
}

/// Moves the cursor over the token it is on.
fn advance(context: &mut ParserContext)
    requires
        old(context).position() < old(context).tokens().len(),
    ensures
        final(context).position() == old(context).position() + 1,
        final(context).same_session(*old(context)),
{
    assert(context.tokens().len() == context.tokens.len());
    context.pos += 1;
}

/// Moves the cursor over a token of the kind `kind`, or fails where the
/// token at the cursor is of another kind or the input has ended.
fn consume(context: &mut ParserContext, kind: TokenKind) -> (result: Result<(), ParseError>)
    ensures
        final(context).same_session(*old(context)),
        has_kind(old(context).tokens(), old(context).position(), kind) ==> result is Ok
            && final(context).position() == old(context).position() + 1,
        !has_kind(old(context).tokens(), old(context).position(), kind) ==> result == Err::<
            (),
            ParseError,
        >(unexpected(kind, old(context).position())),
{
    if match_token(context, kind) {
        advance(context);
        return Ok(());
    }
    Err(ParseError::UnexpectedToken { expected: kind, position: context.pos })
}

/// The cursor, to come back to with `restore`.
fn snapshot(context: &ParserContext) -> (at: usize)
    ensures
        at == context.position(),
{
    context.pos
}

/// Moves the cursor back to where `snapshot` found it.
fn restore(context: &mut ParserContext, at: usize)
    ensures
        final(context).position() == at,
        final(context).same_session(*old(context)),
{
    context.pos = at;
}

/// The statements of a finished parse, as views.
pub open spec fn parsed_views(result: Result<Vec<Stmt>, ParseError>) -> Result<Seq<StmtView>, ParseError> {
    match result {
        Ok(statements) => Ok(stmt_views(statements@)),
        Err(error) => Err(error),
    }
}

/// Parses the whole of `tokens` in the session `context`: loads the tokens,
/// puts the cursor at their start and parses statements up to the end of
/// input. Function declarations are registered in the session as they are
/// parsed, so that a later statement or a later input can call them; those
/// before a failed statement stay registered.
#[verifier::loop_isolation(false)]
pub fn parse(context: &mut ParserContext, tokens: Vec<Token>) -> (result: Result<
    Vec<Stmt>,
    ParseError,
>)
    ensures
        final(context).tokens() == token_views(tokens@),
        parsed_views(result) == program(token_views(tokens@), old(context).symbols()).result,
        final(context).symbols() == program(token_views(tokens@), old(context).symbols()).symbols,
        result is Ok ==> at_end(final(context).tokens(), final(context).position()),
{
    let ghost views = token_views(tokens@);
    let ghost goal = program(views, context.symbols());
    context.tokens = tokens;
    context.pos = 0;
    let mut statements: Vec<Stmt> = Vec::new();
    assert(stmt_views(statements@) =~= Seq::<StmtView>::empty());
    while !is_at_end(context)
        invariant
            context.tokens() == views,
            statements_from(
                views,
                context.symbols(),
                context.position(),
                stmt_views(statements@),
            ) == goal,
        decreases remaining(views, context.position()),
    {
        let ghost done = stmt_views(statements@);
        let statement = match parse_stmt(context) {
            Ok(statement) => statement,
            Err(error) => {
                return Err(error);
            },
        };
        statements.push(statement);
        assert(stmt_views(statements@) =~= done.push(statement@));
    }
    Ok(statements)
}

/// Parses one statement at the cursor. A function declaration is registered
/// in the session; nothing else changes the declarations.
pub fn parse_stmt(context: &mut ParserContext) -> (result: Result<Stmt, ParseError>)
    ensures
        final(context).tokens() == old(context).tokens(),
        yields_stmt(
            result,
            final(context).position(),
            statement_at(old(context).tokens(), old(context).symbols(), old(context).position()),
        ),
        match result {
            Ok(statement) => final(context).symbols() == registered(
                old(context).symbols(),
                statement@,
            ),
            Err(_) => final(context).symbols() == old(context).symbols(),
        },
        result is Ok ==> old(context).position() < final(context).position() <= old(
            context,
        ).tokens().len(),
{
    if match_token(context, TokenKind::Identifier) {
        assert(context.tokens().len() == context.tokens.len());
        if context.pos + 1 < context.tokens.len() {
            match peek_next(context).kind {
                TokenKind::Equals => {
                    return parse_var_decl_stmt(context);
                },
                TokenKind::OpenParenthesis => {
                    return parse_identifier_stmt(context);
                },
                _ => {},
            }
        }
    }
    match parse_expr(context) {
        Ok(expr) => Ok(Stmt::Expr(Box::new(expr))),
        Err(error) => Err(error),
    }
}

/// The names of `parameters`, where every one of them is a bare variable.
fn parameter_identifiers(parameters: &Vec<Expr>) -> (names: Option<Vec<String>>)
    ensures
        match names {
            Some(names) => parameter_names(expr_views(parameters@)) == Some(string_views(names@)),
            None => parameter_names(expr_views(parameters@)) is None,
        },
{
    let mut names: Vec<String> = Vec::new();
    let mut i: usize = 0;
    while i < parameters.len()
        invariant
            i <= parameters.len(),
            names.len() == i,
            forall|j: int|
                0 <= j < i ==> (#[trigger] parameters[j])@ is Var && names[j]@ == parameters[j]@->Var_0,
        decreases parameters.len() - i,
    {
        match &parameters[i] {
            Expr::Var(name) => {
                let ghost before = names@;
                names.push(name.clone());
                assert(parameters[i as int]@ == ExprView::Var(name@));
                assert forall|j: int| 0 <= j < i + 1 implies (#[trigger] parameters[j])@ is Var
                    && names[j]@ == parameters[j]@->Var_0 by {
                    if j < i {
                        assert(names[j] == before[j]);
                    }
                }
            },
            _ => {
                assert(!(expr_views(parameters@)[i as int] is Var));
                return None;
            },
        }
        i += 1;
    }
    proof {
        let views = expr_views(parameters@);
        assert forall|j: int| 0 <= j < views.len() implies views[j] is Var by {
            assert(parameters[j]@ is Var);
            assert(views[j] == parameters@[j]@);
        }
        assert(parameter_names(views)->0 =~= string_views(names@));
    }
    Some(names)
}

/// Parses a statement that begins with an identifier and `(`. Declarations
/// and calls of a function look alike up to there, so the head is parsed as
/// a call first. With `=` behind it the call is turned into a declaration and
/// registered; otherwise the cursor goes back and the statement is parsed as
/// an expression.
fn parse_identifier_stmt(context: &mut ParserContext) -> (result: Result<Stmt, ParseError>)
    ensures
        final(context).tokens() == old(context).tokens(),
        yields_stmt(
            result,
            final(context).position(),
            call_or_declaration_at(
                old(context).tokens(),
                old(context).symbols(),
                old(context).position(),
            ),
        ),
        match result {
            Ok(statement) => final(context).symbols() == registered(
                old(context).symbols(),
                statement@,
            ),
            Err(_) => final(context).symbols() == old(context).symbols(),
        },
        result is Ok ==> old(context).position() < final(context).position() <= old(
            context,
        ).tokens().len(),
{
    let began_at = snapshot(context);
    let primary = match parse_primary(context) {
        Ok(expr) => expr,
        Err(error) => {
            return Err(error);
        },
    };

    if match_token(context, TokenKind::Equals) {
        advance(context);
        let expr = match parse_expr(context) {
            Ok(expr) => expr,
            Err(error) => {
                return Err(error);
            },
        };
        match primary {
            Expr::FnCall(identifier, parameters) => {
                proof {
                    lemma_call_view(primary);
                }
                let parameter_identifiers = match parameter_identifiers(&parameters) {
                    Some(names) => names,
                    None => {
                        return Err(ParseError::InvalidFunctionParameterList);
                    },
                };
                let mut key = identifier.clone();
                key.append("()");
                let fn_decl = Stmt::FnDecl(identifier, parameter_identifiers, Box::new(expr));
                context.symbol_table.insert(key.as_str(), fn_decl.clone());
                Ok(fn_decl)
            },
            _ => Err(ParseError::InvalidFunctionParameterList),
        }
    } else {
        restore(context, began_at);
        match parse_expr(context) {
            Ok(expr) => Ok(Stmt::Expr(Box::new(expr))),
            Err(error) => Err(error),
        }
    }
}

/// Parses a variable declaration: an identifier, `=`, and the value.
fn parse_var_decl_stmt(context: &mut ParserContext) -> (result: Result<Stmt, ParseError>)
    requires
        has_kind(old(context).tokens(), old(context).position(), TokenKind::Identifier),
        has_kind(old(context).tokens(), old(context).position() + 1, TokenKind::Equals),
    ensures
        final(context).same_session(*old(context)),
        yields_stmt(
            result,
            final(context).position(),
            variable_declaration_at(
                old(context).tokens(),
                old(context).symbols(),
                old(context).position(),
            ),
        ),
        result is Ok ==> old(context).position() < final(context).position() <= old(
            context,
        ).tokens().len(),
{
    advance(context);
    let identifier = previous(context).value.clone();
    advance(context);
    match parse_expr(context) {
        Ok(expr) => Ok(Stmt::VarDecl(identifier, Box::new(expr))),
        Err(error) => Err(error),
    }
}

/// Parses an expression at the cursor.
pub fn parse_expr(context: &mut ParserContext) -> (result: Result<Expr, ParseError>)
    ensures
        final(context).same_session(*old(context)),
        yields(
            result,
            final(context).position(),
            expr_at(old(context).tokens(), old(context).symbols(), old(context).position()),
        ),
        result is Ok ==> old(context).position() < final(context).position() <= old(
            context,
        ).tokens().len(),
    decreases remaining(old(context).tokens(), old(context).position()), 8nat,
{
    parse_sum(context)
}

/// Parses a sum: factors joined by `+` and `-`.
#[verifier::loop_isolation(false)]
fn parse_sum(context: &mut ParserContext) -> (result: Result<Expr, ParseError>)
    ensures
        final(context).same_session(*old(context)),
        yields(
            result,
            final(context).position(),
            sum_at(old(context).tokens(), old(context).symbols(), old(context).position()),
        ),
        result is Ok ==> old(context).position() < final(context).position() <= old(
            context,
        ).tokens().len(),
    decreases remaining(old(context).tokens(), old(context).position()), 7nat,
{
    let ghost tokens = context.tokens();
    let ghost symbols = context.symbols();
    let ghost start = context.position();
    let mut left = match parse_factor(context) {
        Ok(expr) => expr,
        Err(error) => {
            return Err(error);
        },
    };
    let ghost goal = sum_at(tokens, symbols, start);
    while match_token(context, TokenKind::Plus) || match_token(context, TokenKind::Minus)
        invariant
            context.tokens() == tokens,
            context.symbols() == symbols,
            start < context.position() <= tokens.len(),
            sum_tail(tokens, symbols, left@, context.position()) == goal,
        decreases remaining(tokens, context.position()),
    {
        let op = peek(context).kind;
        advance(context);
        let right = match parse_factor(context) {
            Ok(expr) => expr,
            Err(error) => {
                return Err(error);
            },
        };
        left = Expr::Binary(Box::new(left), op, Box::new(right));
    }
    Ok(left)
}

/// Parses a factor: prefix expressions joined by `*`, `/` or nothing at all
/// before an identifier.
#[verifier::loop_isolation(false)]
fn parse_factor(context: &mut ParserContext) -> (result: Result<Expr, ParseError>)
    ensures
        final(context).same_session(*old(context)),
        yields(
            result,
            final(context).position(),
            factor_at(old(context).tokens(), old(context).symbols(), old(context).position()),
        ),
        result is Ok ==> old(context).position() < final(context).position() <= old(
            context,
        ).tokens().len(),
    decreases remaining(old(context).tokens(), old(context).position()), 6nat,
{
    let ghost tokens = context.tokens();
    let ghost symbols = context.symbols();
    let ghost start = context.position();
    let mut left = match parse_unary(context) {
        Ok(expr) => expr,
        Err(error) => {
            return Err(error);
        },
    };
    let ghost goal = factor_at(tokens, symbols, start);
    while match_token(context, TokenKind::Star) || match_token(context, TokenKind::Slash)
        || match_token(context, TokenKind::Identifier)
        invariant
            context.tokens() == tokens,
            context.symbols() == symbols,
            start < context.position() <= tokens.len(),
            factor_tail(tokens, symbols, left@, context.position()) == goal,
        decreases remaining(tokens, context.position()),
    {
        let mut op = peek(context).kind;
        // An identifier here multiplies without an operator, as in 3y.
        if op.compare(&TokenKind::Identifier) {
            op = TokenKind::Star;
        } else {
            advance(context);
        }
        let right = match parse_unary(context) {
            Ok(expr) => expr,
            Err(error) => {
                return Err(error);
            },
        };
        left = Expr::Binary(Box::new(left), op, Box::new(right));
    }
    Ok(left)
}

/// Parses a prefix expression: any number of `-` before a power.
fn parse_unary(context: &mut ParserContext) -> (result: Result<Expr, ParseError>)
    ensures
        final(context).same_session(*old(context)),
        yields(
            result,
            final(context).position(),
            unary_at(old(context).tokens(), old(context).symbols(), old(context).position()),
        ),
        result is Ok ==> old(context).position() < final(context).position() <= old(
            context,
        ).tokens().len(),
    decreases remaining(old(context).tokens(), old(context).position()), 4nat,
{
    if match_token(context, TokenKind::Minus) {
        advance(context);
        let op = previous(context).kind;
        return match parse_unary(context) {
            Ok(expr) => Ok(Expr::Unary(op, Box::new(expr))),
            Err(error) => Err(error),
        };
    }
    parse_exponent(context)
}

/// Parses a power, whose exponent may be a power itself.
fn parse_exponent(context: &mut ParserContext) -> (result: Result<Expr, ParseError>)
    ensures
        final(context).same_session(*old(context)),
        yields(
            result,
            final(context).position(),
            exponent_at(old(context).tokens(), old(context).symbols(), old(context).position()),
        ),
        result is Ok ==> old(context).position() < final(context).position() <= old(
            context,
        ).tokens().len(),
    decreases remaining(old(context).tokens(), old(context).position()), 3nat,
{
    let left = match parse_primary(context) {
        Ok(expr) => expr,
        Err(error) => {
            return Err(error);
        },
    };
    if match_token(context, TokenKind::Power) {
        advance(context);
        let op = previous(context).kind;
        return match parse_exponent(context) {
            Ok(right) => Ok(Expr::Binary(Box::new(left), op, Box::new(right))),
            Err(error) => Err(error),
        };
    }
    Ok(left)
}

/// Parses a primary and the unit suffix behind it, if there is one.
fn parse_primary(context: &mut ParserContext) -> (result: Result<Expr, ParseError>)
    ensures
        final(context).same_session(*old(context)),
        yields(
            result,
            final(context).position(),
            primary_at(old(context).tokens(), old(context).symbols(), old(context).position()),
        ),
        result is Ok ==> old(context).position() < final(context).position() <= old(
            context,
        ).tokens().len(),
    decreases remaining(old(context).tokens(), old(context).position()), 2nat,
{
    if is_at_end(context) {
        return Err(ParseError::UnexpectedToken { expected: TokenKind::Literal, position: context.pos });
    }
    let parsed = match peek(context).kind {
        TokenKind::OpenParenthesis => parse_group(context),
        TokenKind::Pipe => parse_abs(context),
        TokenKind::Identifier => parse_identifier(context),
        _ => {
            advance(context);
            Ok(Expr::Literal(previous(context).value.clone()))
        },
    };
    let expr = match parsed {
        Ok(expr) => expr,
        Err(error) => {
            return Err(error);
        },
    };
    if !is_at_end(context) && peek(context).kind.is_unit() {
        advance(context);
        Ok(Expr::Unit(Box::new(expr), previous(context).kind))
    } else {
        Ok(expr)
    }
}

/// Parses an expression between parentheses.
fn parse_group(context: &mut ParserContext) -> (result: Result<Expr, ParseError>)
    ensures
        final(context).same_session(*old(context)),
        yields(
            result,
            final(context).position(),
            group_at(old(context).tokens(), old(context).symbols(), old(context).position()),
        ),
        result is Ok ==> old(context).position() < final(context).position() <= old(
            context,
        ).tokens().len(),
    decreases remaining(old(context).tokens(), old(context).position()), 1nat,
{
    match consume(context, TokenKind::OpenParenthesis) {
        Ok(_) => {},
        Err(error) => {
            return Err(error);
        },
    }
    let group_expr = match parse_expr(context) {
        Ok(expr) => Expr::Group(Box::new(expr)),
        Err(error) => {
            return Err(error);
        },
    };
    match consume(context, TokenKind::ClosedParenthesis) {
        Ok(_) => Ok(group_expr),
        Err(error) => Err(error),
    }
}

/// Parses an expression between pipes into a call of `abs`.
fn parse_abs(context: &mut ParserContext) -> (result: Result<Expr, ParseError>)
    ensures
        final(context).same_session(*old(context)),
        yields(
            result,
            final(context).position(),
            abs_at(old(context).tokens(), old(context).symbols(), old(context).position()),
        ),
        result is Ok ==> old(context).position() < final(context).position() <= old(
            context,
        ).tokens().len(),
    decreases remaining(old(context).tokens(), old(context).position()), 1nat,
{
    match consume(context, TokenKind::Pipe) {
        Ok(_) => {},
        Err(error) => {
            return Err(error);
        },
    }
    let group_expr = match parse_expr(context) {
        Ok(expr) => Expr::Group(Box::new(expr)),
        Err(error) => {
            return Err(error);
        },
    };
    match consume(context, TokenKind::Pipe) {
        Ok(_) => {},
        Err(error) => {
            return Err(error);
        },
    }
    let mut arguments: Vec<Expr> = Vec::new();
    arguments.push(group_expr);
    let call = Expr::FnCall("abs".to_owned(), arguments);
    proof {
        lemma_call_view(call);
        assert(expr_views(call->FnCall_1@) =~= seq![group_expr@]);
    }
    Ok(call)
}

/// Parses what an identifier leads: a call or a variable.
#[verifier::loop_isolation(false)]
fn parse_identifier(context: &mut ParserContext) -> (result: Result<Expr, ParseError>)
    ensures
        final(context).same_session(*old(context)),
        yields(
            result,
            final(context).position(),
            identifier_at(old(context).tokens(), old(context).symbols(), old(context).position()),
        ),
        result is Ok ==> old(context).position() < final(context).position() <= old(
            context,
        ).tokens().len(),
    decreases remaining(old(context).tokens(), old(context).position()), 1nat,
{
    let ghost tokens = context.tokens();
    let ghost symbols = context.symbols();
    let ghost start = context.position();
    match consume(context, TokenKind::Identifier) {
        Ok(_) => {},
        Err(error) => {
            return Err(error);
        },
    }
    let identifier = previous(context).value.clone();

    // A known function next to a literal takes it as its argument, as in f4.
    if match_token(context, TokenKind::Literal) {
        if context.symbol_table.contains_func(identifier.as_str()) {
            advance(context);
            let parameter = Expr::Literal(previous(context).value.clone());
            let mut parameters: Vec<Expr> = Vec::new();
            parameters.push(parameter);
            let call = Expr::FnCall(identifier, parameters);
            proof {
                lemma_call_view(call);
                assert(expr_views(call->FnCall_1@) =~= seq![parameter@]);
            }
            return Ok(call);
        }
    }

    // An argument list in parentheses, as in f(4).
    if match_token(context, TokenKind::OpenParenthesis) {
        advance(context);
        let mut parameters: Vec<Expr> = Vec::new();
        let first = match parse_expr(context) {
            Ok(expr) => expr,
            Err(error) => {
                return Err(error);
            },
        };
        let ghost goal = arguments_tail(tokens, symbols, seq![first@], context.position());
        parameters.push(first);
        assert(expr_views(parameters@) =~= seq![first@]);
        while match_token(context, TokenKind::Comma)
            invariant
                context.tokens() == tokens,
                context.symbols() == symbols,
                start < context.position() <= tokens.len(),
                arguments_tail(tokens, symbols, expr_views(parameters@), context.position()) == goal,
            decreases remaining(tokens, context.position()),
        {
            advance(context);
            let ghost before = expr_views(parameters@);
            let argument = match parse_expr(context) {
                Ok(expr) => expr,
                Err(error) => {
                    return Err(error);
                },
            };
            parameters.push(argument);
            assert(expr_views(parameters@) =~= before.push(argument@));
        }
        match consume(context, TokenKind::ClosedParenthesis) {
            Ok(_) => {},
            Err(error) => {
                return Err(error);
            },
        }
        let call = Expr::FnCall(identifier, parameters);
        proof {
            lemma_call_view(call);
        }
        return Ok(call);
    }

    // A bare variable, as in x.
    Ok(Expr::Var(identifier))
}

} // verus!
