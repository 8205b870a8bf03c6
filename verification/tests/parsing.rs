use kalk::grammar::ParseError;
use kalk::parser::{parse, parse_expr, parse_stmt, Expr, ParserContext, Stmt, Unit};
use kalk::symbol_table::SymbolTable;
use kalk::token::{Token, TokenKind};

fn token(kind: TokenKind, value: &str) -> Token {
    Token { kind, value: value.to_string() }
}

/// Splits a line into tokens, ending with the end-of-input marker.
fn lex(input: &str) -> Vec<Token> {
    let chars: Vec<char> = input.chars().collect();
    let mut tokens = Vec::new();
    let mut i = 0;
    while i < chars.len() {
        let c = chars[i];
        if c.is_whitespace() {
            i += 1;
            continue;
        }
        if c.is_ascii_digit() || c == '.' {
            let start = i;
            while i < chars.len() && (chars[i].is_ascii_digit() || chars[i] == '.') {
                i += 1;
            }
            tokens.push(token(TokenKind::Literal, &chars[start..i].iter().collect::<String>()));
            continue;
        }
        if c.is_alphabetic() {
            let start = i;
            while i < chars.len() && chars[i].is_alphabetic() {
                i += 1;
            }
            let word: String = chars[start..i].iter().collect();
            let kind = match word.as_str() {
                "deg" => TokenKind::Deg,
                "rad" => TokenKind::Rad,
                _ => TokenKind::Identifier,
            };
            tokens.push(token(kind, &word));
            continue;
        }
        let kind = match c {
            '+' => TokenKind::Plus,
            '-' => TokenKind::Minus,
            '*' => TokenKind::Star,
            '/' => TokenKind::Slash,
            '^' => TokenKind::Power,
            '=' => TokenKind::Equals,
            '|' => TokenKind::Pipe,
            '(' => TokenKind::OpenParenthesis,
            ')' => TokenKind::ClosedParenthesis,
            ',' => TokenKind::Comma,
            _ => TokenKind::Unknown,
        };
        tokens.push(token(kind, &c.to_string()));
        i += 1;
    }
    tokens.push(token(TokenKind::EOF, ""));
    tokens
}

fn parse_line(context: &mut ParserContext, input: &str) -> Result<Vec<Stmt>, ParseError> {
    parse(context, lex(input))
}

fn parse_one(input: &str) -> Stmt {
    let mut context = ParserContext::new();
    let mut statements = parse_line(&mut context, input).unwrap();
    assert_eq!(statements.len(), 1);
    statements.remove(0)
}

fn parse_error(input: &str) -> ParseError {
    let mut context = ParserContext::new();
    parse_line(&mut context, input).unwrap_err()
}

fn literal(text: &str) -> Expr {
    Expr::Literal(text.to_string())
}

fn var(name: &str) -> Expr {
    Expr::Var(name.to_string())
}

fn binary(left: Expr, op: TokenKind, right: Expr) -> Expr {
    Expr::Binary(Box::new(left), op, Box::new(right))
}

fn call(name: &str, arguments: Vec<Expr>) -> Expr {
    Expr::FnCall(name.to_string(), arguments)
}

fn expression(expr: Expr) -> Stmt {
    Stmt::Expr(Box::new(expr))
}

/// Evaluates an expression as an interpreter would, for the values that the tests name.
fn evaluate(expr: &Expr, table: &SymbolTable, locals: &[(String, f64)]) -> Result<f64, String> {
    match expr {
        Expr::Literal(text) => text.parse::<f64>().map_err(|_| format!("no number: {}", text)),
        Expr::Group(inner) => evaluate(inner, table, locals),
        Expr::Unit(inner, _) => evaluate(inner, table, locals),
        Expr::Unary(_, inner) => Ok(-evaluate(inner, table, locals)?),
        Expr::Binary(left, op, right) => {
            let l = evaluate(left, table, locals)?;
            let r = evaluate(right, table, locals)?;
            match op {
                TokenKind::Plus => Ok(l + r),
                TokenKind::Minus => Ok(l - r),
                TokenKind::Star => Ok(l * r),
                TokenKind::Slash => Ok(l / r),
                TokenKind::Power => Ok(l.powf(r)),
                _ => Err(String::from("no operator")),
            }
        }
        Expr::Var(name) => {
            if let Some((_, value)) = locals.iter().find(|(n, _)| n == name) {
                return Ok(*value);
            }
            match table.get(name) {
                Some(Stmt::VarDecl(_, value)) => evaluate(value, table, &[]),
                _ => Err(format!("unknown variable {}", name)),
            }
        }
        Expr::FnCall(name, arguments) => {
            let mut values = Vec::new();
            for argument in arguments {
                values.push(evaluate(argument, table, locals)?);
            }
            if name == "abs" && values.len() == 1 {
                return Ok(values[0].abs());
            }
            match table.get(&format!("{}()", name)) {
                Some(Stmt::FnDecl(_, parameters, body)) if parameters.len() == values.len() => {
                    let bound: Vec<(String, f64)> =
                        parameters.iter().cloned().zip(values.into_iter()).collect();
                    evaluate(body, table, &bound)
                }
                _ => Err(format!("unknown function {}", name)),
            }
        }
    }
}

/// Parses a line and evaluates its last expression statement.
fn run(context: &mut ParserContext, input: &str) -> Result<Result<f64, String>, ParseError> {
    let statements = parse_line(context, input)?;
    let mut value = Err(String::from("no value"));
    for statement in statements {
        match statement {
            Stmt::Expr(expr) => value = evaluate(&expr, context.symbol_table(), &[]),
            Stmt::VarDecl(name, expr) => {
                let key = name.clone();
                context.declare(&key, Stmt::VarDecl(name, expr));
            }
            Stmt::FnDecl(..) => {}
        }
    }
    Ok(value)
}

#[test]
fn token_kind_is_unit() {
    assert!(TokenKind::Deg.is_unit());
    assert!(TokenKind::Rad.is_unit());
    assert!(!TokenKind::Literal.is_unit());
    assert!(!TokenKind::Identifier.is_unit());
    assert!(!TokenKind::EOF.is_unit());
}

#[test]
fn token_kind_compare() {
    assert!(TokenKind::Plus.compare(&TokenKind::Plus));
    assert!(!TokenKind::Plus.compare(&TokenKind::Minus));
    assert!(TokenKind::EOF.compare(&TokenKind::EOF));
}

#[test]
fn new_context_is_empty() {
    let mut context = ParserContext::new();
    assert!(context.symbol_table().get("x").is_none());
    assert!(!context.symbol_table().contains_func("f"));
    assert_eq!(parse(&mut context, Vec::new()), Ok(Vec::new()));
}

#[test]
fn empty_input_has_no_statements() {
    let mut context = ParserContext::new();
    assert_eq!(parse_line(&mut context, ""), Ok(Vec::new()));
}

#[test]
fn literal_statement() {
    assert_eq!(parse_one("42"), expression(literal("42")));
}

#[test]
fn sum_is_left_associative() {
    assert_eq!(
        parse_one("1-2+3"),
        expression(binary(
            binary(literal("1"), TokenKind::Minus, literal("2")),
            TokenKind::Plus,
            literal("3")
        ))
    );
}

#[test]
fn factor_binds_tighter_than_sum() {
    assert_eq!(
        parse_one("1+2*3"),
        expression(binary(
            literal("1"),
            TokenKind::Plus,
            binary(literal("2"), TokenKind::Star, literal("3"))
        ))
    );
    assert_eq!(
        parse_one("8/4/2"),
        expression(binary(
            binary(literal("8"), TokenKind::Slash, literal("4")),
            TokenKind::Slash,
            literal("2")
        ))
    );
}

#[test]
fn power_is_right_associative() {
    assert_eq!(
        parse_one("2^3^4"),
        expression(binary(
            literal("2"),
            TokenKind::Power,
            binary(literal("3"), TokenKind::Power, literal("4"))
        ))
    );
}

#[test]
fn minus_binds_looser_than_power() {
    assert_eq!(
        parse_one("-2^2"),
        expression(Expr::Unary(
            TokenKind::Minus,
            Box::new(binary(literal("2"), TokenKind::Power, literal("2")))
        ))
    );
    assert_eq!(
        parse_one("3*-2"),
        expression(binary(
            literal("3"),
            TokenKind::Star,
            Expr::Unary(TokenKind::Minus, Box::new(literal("2")))
        ))
    );
}

#[test]
fn group_in_parentheses() {
    assert_eq!(
        parse_one("(1+2)*3"),
        expression(binary(
            Expr::Group(Box::new(binary(literal("1"), TokenKind::Plus, literal("2")))),
            TokenKind::Star,
            literal("3")
        ))
    );
}

#[test]
fn unit_suffix_wraps_primary() {
    assert_eq!(
        parse_one("90 deg"),
        expression(Expr::Unit(Box::new(literal("90")), TokenKind::Deg))
    );
    assert_eq!(
        parse_one("2 rad^2"),
        expression(binary(
            Expr::Unit(Box::new(literal("2")), TokenKind::Rad),
            TokenKind::Power,
            literal("2")
        ))
    );
}

#[test]
fn implicit_multiplication_matches_explicit() {
    let mut context = ParserContext::new();
    context.declare("y", Stmt::VarDecl(String::from("y"), Box::new(literal("2"))));
    let implicit = parse_line(&mut context, "3y").unwrap();
    let explicit = parse_line(&mut context, "3*y").unwrap();
    assert_eq!(implicit, explicit);
    assert_eq!(implicit, vec![expression(binary(literal("3"), TokenKind::Star, var("y")))]);
}

#[test]
fn implicit_multiplication_chains() {
    assert_eq!(
        parse_one("2x y"),
        expression(binary(
            binary(literal("2"), TokenKind::Star, var("x")),
            TokenKind::Star,
            var("y")
        ))
    );
}

#[test]
fn declared_function_is_called_later() {
    let mut context = ParserContext::new();
    let declared = parse_line(&mut context, "f(x)=x^2").unwrap();
    assert_eq!(
        declared,
        vec![Stmt::FnDecl(
            String::from("f"),
            vec![String::from("x")],
            Box::new(binary(var("x"), TokenKind::Power, literal("2")))
        )]
    );
    assert!(context.symbol_table().contains_func("f"));
    assert_eq!(context.symbol_table().get("f()"), Some(&declared[0]));
    assert_eq!(run(&mut context, "f(4)"), Ok(Ok(16.0)));
}

#[test]
fn undeclared_function_parses_as_call() {
    let mut context = ParserContext::new();
    assert_eq!(
        parse_line(&mut context, "f(4)"),
        Ok(vec![expression(call("f", vec![literal("4")]))])
    );
    assert!(matches!(run(&mut context, "f(4)"), Ok(Err(_))));
}

#[test]
fn absolute_value_is_a_call_of_abs() {
    assert_eq!(
        parse_one("|-5|"),
        expression(call(
            "abs",
            vec![Expr::Group(Box::new(Expr::Unary(TokenKind::Minus, Box::new(literal("5")))))]
        ))
    );
    let mut context = ParserContext::new();
    assert_eq!(run(&mut context, "|-5|"), Ok(Ok(5.0)));
}

#[test]
fn known_function_takes_adjacent_literal() {
    let mut context = ParserContext::new();
    parse_line(&mut context, "f(x)=x+1").unwrap();
    assert_eq!(
        parse_line(&mut context, "f4"),
        Ok(vec![expression(call("f", vec![literal("4")]))])
    );
    assert_eq!(run(&mut context, "f4"), Ok(Ok(5.0)));
}

#[test]
fn unknown_name_next_to_literal_is_a_variable() {
    // The literal is not taken as an argument; it is left for what follows.
    let mut context = ParserContext::new();
    assert_eq!(
        parse_line(&mut context, "g4"),
        Ok(vec![expression(var("g")), expression(literal("4"))])
    );
}

#[test]
fn variable_and_function_share_a_name() {
    let mut context = ParserContext::new();
    context.declare("f", Stmt::VarDecl(String::from("f"), Box::new(literal("3"))));
    assert!(!context.symbol_table().contains_func("f"));
    parse_line(&mut context, "f(x)=x").unwrap();
    assert!(context.symbol_table().contains_func("f"));
    assert!(matches!(context.symbol_table().get("f"), Some(Stmt::VarDecl(..))));
    assert!(matches!(context.symbol_table().get("f()"), Some(Stmt::FnDecl(..))));
}

#[test]
fn call_with_several_arguments() {
    assert_eq!(
        parse_one("max(1, x+2, 3)"),
        expression(call(
            "max",
            vec![literal("1"), binary(var("x"), TokenKind::Plus, literal("2")), literal("3")]
        ))
    );
}

#[test]
fn variable_declaration() {
    assert_eq!(
        parse_one("x = 1+2"),
        Stmt::VarDecl(
            String::from("x"),
            Box::new(binary(literal("1"), TokenKind::Plus, literal("2")))
        )
    );
}

#[test]
fn variable_declaration_is_not_registered_by_the_parser() {
    let mut context = ParserContext::new();
    parse_line(&mut context, "x = 3").unwrap();
    assert!(context.symbol_table().get("x").is_none());
}

#[test]
fn function_declaration_with_two_parameters() {
    assert_eq!(
        parse_one("f(a, b) = a*b"),
        Stmt::FnDecl(
            String::from("f"),
            vec![String::from("a"), String::from("b")],
            Box::new(binary(var("a"), TokenKind::Star, var("b")))
        )
    );
}

#[test]
fn redeclaration_replaces_the_function() {
    let mut context = ParserContext::new();
    parse_line(&mut context, "f(x)=x").unwrap();
    parse_line(&mut context, "f(x)=x*2").unwrap();
    assert_eq!(run(&mut context, "f(4)"), Ok(Ok(8.0)));
}

#[test]
fn call_statement_is_parsed_again_after_rewind() {
    assert_eq!(
        parse_one("f(2)+1"),
        expression(binary(call("f", vec![literal("2")]), TokenKind::Plus, literal("1")))
    );
}

#[test]
fn declaration_is_visible_to_later_statements_of_the_same_input() {
    let mut context = ParserContext::new();
    let tokens = {
        let mut tokens = lex("f(x)=x");
        tokens.pop();
        tokens.push(token(TokenKind::Unknown, ";"));
        tokens.extend(lex("f 2"));
        tokens
    };
    // The unknown token opens a second statement as a literal; the `f 2`
    // behind it is a call, because `f` was declared by the first statement.
    let statements = parse(&mut context, tokens).unwrap();
    assert_eq!(statements.len(), 2);
    assert!(matches!(statements[0], Stmt::FnDecl(..)));
    assert_eq!(
        statements[1],
        expression(binary(literal(";"), TokenKind::Star, call("f", vec![literal("2")])))
    );
}

#[test]
fn invalid_parameter_list() {
    assert_eq!(parse_error("f(1)=2"), ParseError::InvalidFunctionParameterList);
    assert_eq!(parse_error("f(x, y+1)=2"), ParseError::InvalidFunctionParameterList);
    assert_eq!(parse_error("f(x) deg = 2"), ParseError::InvalidFunctionParameterList);
}

#[test]
fn failed_declaration_registers_nothing() {
    let mut context = ParserContext::new();
    assert!(parse_line(&mut context, "f(1)=2").is_err());
    assert!(!context.symbol_table().contains_func("f"));
    assert!(parse_line(&mut context, "g(x)=(").is_err());
    assert!(!context.symbol_table().contains_func("g"));
}

#[test]
fn missing_closing_parenthesis() {
    assert_eq!(
        parse_error("(1+2"),
        ParseError::UnexpectedToken { expected: TokenKind::ClosedParenthesis, position: 4 }
    );
    assert_eq!(
        parse_error("f(1, 2"),
        ParseError::UnexpectedToken { expected: TokenKind::ClosedParenthesis, position: 5 }
    );
}

#[test]
fn missing_closing_pipe() {
    assert_eq!(
        parse_error("|1+2"),
        ParseError::UnexpectedToken { expected: TokenKind::Pipe, position: 4 }
    );
}

#[test]
fn operand_missing_at_end_of_input() {
    assert_eq!(
        parse_error("3+"),
        ParseError::UnexpectedToken { expected: TokenKind::Literal, position: 2 }
    );
    assert_eq!(
        parse_error("x="),
        ParseError::UnexpectedToken { expected: TokenKind::Literal, position: 2 }
    );
    assert_eq!(
        parse_error("-"),
        ParseError::UnexpectedToken { expected: TokenKind::Literal, position: 1 }
    );
}

#[test]
fn tokens_without_end_marker() {
    let mut context = ParserContext::new();
    let tokens = vec![token(TokenKind::Literal, "1"), token(TokenKind::Plus, "+")];
    assert_eq!(
        parse(&mut context, tokens),
        Err(ParseError::UnexpectedToken { expected: TokenKind::Literal, position: 2 })
    );
    let tokens = vec![token(TokenKind::Identifier, "x")];
    assert_eq!(parse(&mut context, tokens), Ok(vec![expression(var("x"))]));
}

#[test]
fn earlier_declarations_survive_a_later_error() {
    let mut context = ParserContext::new();
    let mut tokens = lex("f(x)=x");
    tokens.pop();
    tokens.extend(lex(")"));
    tokens.extend(lex("+"));
    // `f(x) = x )` then `+` with nothing behind it.
    let mut joined = Vec::new();
    for t in tokens {
        if t.kind != TokenKind::EOF {
            joined.push(t);
        }
    }
    joined.push(token(TokenKind::EOF, ""));
    assert!(parse(&mut context, joined).is_err());
    assert!(context.symbol_table().contains_func("f"));
}

#[test]
fn session_is_reused_from_the_start_of_each_input() {
    let mut context = ParserContext::new();
    assert_eq!(parse_line(&mut context, "1+2+3").unwrap().len(), 1);
    assert_eq!(parse_line(&mut context, "4"), Ok(vec![expression(literal("4"))]));
}

#[test]
fn parse_stmt_and_parse_expr_on_an_empty_context() {
    let mut context = ParserContext::new();
    assert_eq!(
        parse_stmt(&mut context),
        Err(ParseError::UnexpectedToken { expected: TokenKind::Literal, position: 0 })
    );
    assert_eq!(
        parse_expr(&mut context),
        Err(ParseError::UnexpectedToken { expected: TokenKind::Literal, position: 0 })
    );
}

#[test]
fn statements_are_cloned_deeply() {
    let statement = parse_one("f(a, b) = g(a, 2)^b");
    assert_eq!(statement.clone(), statement);
    let statement = parse_one("x = |y| deg");
    assert_eq!(statement.clone(), statement);
}

#[test]
fn angle_units_differ() {
    assert_ne!(Unit::Radians, Unit::Degrees);
}

#[test]
fn symbol_table_insert_and_get() {
    let mut table = SymbolTable::new();
    assert!(table.get("x").is_none());
    table.insert("x", Stmt::VarDecl(String::from("x"), Box::new(literal("1"))));
    table.insert("y", Stmt::VarDecl(String::from("y"), Box::new(literal("2"))));
    table.insert("x", Stmt::VarDecl(String::from("x"), Box::new(literal("3"))));
    assert_eq!(table.get("x"), Some(&Stmt::VarDecl(String::from("x"), Box::new(literal("3")))));
    assert_eq!(table.get("y"), Some(&Stmt::VarDecl(String::from("y"), Box::new(literal("2")))));
    assert!(table.get("z").is_none());
    assert!(!table.contains_func("x"));
    table.insert("x()", Stmt::FnDecl(String::from("x"), Vec::new(), Box::new(literal("1"))));
    assert!(table.contains_func("x"));
}
