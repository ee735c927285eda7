use calculatrice::lexer::{tokenize, Token, TokenType};
use calculatrice::parser::{
    eval, operator_associativity, operator_priority, parse, to_npi, Associativity, EvalError,
    ParseError, SyntaxError,
};
use calculatrice::term::{Expr, Operation};

fn token(type_: TokenType, value: &str) -> Token {
    Token { type_, value: value.to_string() }
}

fn number(value: &str) -> Token {
    token(TokenType::Int, value)
}

fn plus() -> Token {
    token(TokenType::Plus, "+")
}

fn minus() -> Token {
    token(TokenType::Minus, "-")
}

fn times() -> Token {
    token(TokenType::Multiply, "*")
}

fn over() -> Token {
    token(TokenType::Divide, "/")
}

fn open() -> Token {
    token(TokenType::LeftParenthesis, "(")
}

fn close() -> Token {
    token(TokenType::RightParenthesis, ")")
}

fn leaf(digits: &str) -> Expr {
    Expr::Number(digits.to_string())
}

fn node(operation: Operation, left: Expr, right: Expr) -> Expr {
    Expr::Binary(operation, Box::new(left), Box::new(right))
}

fn value(expr: &Expr) -> f64 {
    match expr {
        Expr::Number(digits) => digits.parse().unwrap(),
        Expr::Binary(operation, left, right) => {
            let a = value(left);
            let b = value(right);
            match operation {
                Operation::Add => a + b,
                Operation::Subtract => a - b,
                Operation::Multiply => a * b,
                Operation::Divide => a / b,
            }
        }
    }
}

fn compute(text: &str) -> f64 {
    let tokens = tokenize(text).unwrap();
    let stream = to_npi(tokens).unwrap();
    value(&eval(stream).unwrap())
}

#[test]
fn priorities() {
    assert_eq!(operator_priority(&times()), 10);
    assert_eq!(operator_priority(&over()), 10);
    assert_eq!(operator_priority(&plus()), 5);
    assert_eq!(operator_priority(&minus()), 5);
    assert_eq!(operator_priority(&number("1")), 0);
    assert_eq!(operator_priority(&open()), 0);
    assert_eq!(operator_priority(&close()), 0);
}

#[test]
fn every_operator_groups_to_the_left() {
    assert_eq!(operator_associativity(&plus()), Associativity::Left);
    assert_eq!(operator_associativity(&minus()), Associativity::Left);
    assert_eq!(operator_associativity(&times()), Associativity::Left);
    assert_eq!(operator_associativity(&over()), Associativity::Left);
    assert_eq!(operator_associativity(&number("3")), Associativity::Left);
}

#[test]
fn postfix_of_a_product_inside_a_sum() {
    let tokens = tokenize("2 + 3 * 4").unwrap();
    assert_eq!(
        to_npi(tokens),
        Ok(vec![number("2"), number("3"), number("4"), times(), plus()])
    );
}

#[test]
fn postfix_of_a_chain_of_equal_priority() {
    let tokens = tokenize("8 - 3 - 2").unwrap();
    assert_eq!(
        to_npi(tokens),
        Ok(vec![number("8"), number("3"), minus(), number("2"), minus()])
    );
}

#[test]
fn postfix_drops_parentheses() {
    let tokens = tokenize("(2 + 3) * 4").unwrap();
    assert_eq!(
        to_npi(tokens),
        Ok(vec![number("2"), number("3"), plus(), number("4"), times()])
    );
}

#[test]
fn postfix_of_nothing_is_nothing() {
    assert_eq!(to_npi(vec![]), Ok(vec![]));
    assert_eq!(to_npi(vec![open(), close()]), Ok(vec![]));
}

#[test]
fn postfix_takes_tokens_that_are_no_expression() {
    assert_eq!(to_npi(vec![number("2"), number("3")]), Ok(vec![number("2"), number("3")]));
    assert_eq!(
        to_npi(vec![plus(), times(), plus()]),
        Ok(vec![times(), plus(), plus()])
    );
}

#[test]
fn precedence() {
    assert_eq!(compute("2 + 3 * 4"), 14.0);
    assert_eq!(compute("2 * 3 + 4"), 10.0);
    assert_eq!(compute("20 - 12 / 4"), 17.0);
}

#[test]
fn left_associativity() {
    assert_eq!(compute("8 - 3 - 2"), 3.0);
    assert_eq!(compute("64 / 4 / 2"), 8.0);
}

#[test]
fn parentheses_override_precedence() {
    assert_eq!(compute("(2 + 3) * 4"), 20.0);
    assert_eq!(compute("8 - (3 - 2)"), 7.0);
    assert_eq!(compute("((7))"), 7.0);
}

#[test]
fn unary_minus_is_zero_minus() {
    assert_eq!(compute("-5"), -5.0);
    assert_eq!(compute("(-5)"), -5.0);
    assert_eq!(compute("+5"), 5.0);
}

#[test]
fn unary_minus_after_a_product_is_no_negation() {
    assert_eq!(compute("2 * -5"), -5.0);
    assert_eq!(compute("2 * -5 * -5"), -5.0);
}

#[test]
fn division_follows_floating_point() {
    assert_eq!(compute("7 / 2"), 3.5);
    assert_eq!(compute("1 / 0"), f64::INFINITY);
    assert!(compute("0 / 0").is_nan());
}

#[test]
fn term_of_a_product_inside_a_sum() {
    let stream = to_npi(tokenize("2 + 3 * 4").unwrap()).unwrap();
    assert_eq!(
        eval(stream),
        Ok(node(
            Operation::Add,
            leaf("2"),
            node(Operation::Multiply, leaf("3"), leaf("4"))
        ))
    );
}

#[test]
fn term_keeps_left_and_right() {
    assert_eq!(
        eval(vec![number("8"), number("3"), minus()]),
        Ok(node(Operation::Subtract, leaf("8"), leaf("3")))
    );
    assert_eq!(
        eval(vec![number("8"), number("3"), over()]),
        Ok(node(Operation::Divide, leaf("8"), leaf("3")))
    );
}

#[test]
fn term_of_a_literal_keeps_its_digits() {
    assert_eq!(eval(vec![number("0042")]), Ok(leaf("0042")));
}

#[test]
fn fully_parenthesized_expression_round_trips() {
    let tokens = tokenize("((1 + 2) * (3 - (4 / 5)))").unwrap();
    let stream = to_npi(tokens).unwrap();
    assert_eq!(
        eval(stream),
        Ok(node(
            Operation::Multiply,
            node(Operation::Add, leaf("1"), leaf("2")),
            node(
                Operation::Subtract,
                leaf("3"),
                node(Operation::Divide, leaf("4"), leaf("5"))
            )
        ))
    );
}

#[test]
fn unclosed_parenthesis_is_a_syntax_error() {
    let tokens = tokenize("(2 + 3").unwrap();
    assert_eq!(to_npi(tokens), Err(SyntaxError::UnmatchedLeftParenthesis));
}

#[test]
fn unopened_parenthesis_is_a_syntax_error() {
    let tokens = tokenize("2 + 3)").unwrap();
    assert_eq!(to_npi(tokens), Err(SyntaxError::UnmatchedRightParenthesis));
    assert_eq!(to_npi(vec![close()]), Err(SyntaxError::UnmatchedRightParenthesis));
}

#[test]
fn unopened_parenthesis_is_found_before_an_unclosed_one() {
    let tokens = tokenize(")(").unwrap();
    assert_eq!(to_npi(tokens), Err(SyntaxError::UnmatchedRightParenthesis));
}

#[test]
fn operator_with_one_operand_fails() {
    let tokens = tokenize("+").unwrap();
    assert_eq!(tokens, vec![number("0"), plus()]);
    let stream = to_npi(tokens).unwrap();
    assert_eq!(stream, vec![number("0"), plus()]);
    assert_eq!(eval(stream), Err(EvalError::MissingOperand));
}

#[test]
fn operator_with_no_operand_fails() {
    assert_eq!(eval(vec![times()]), Err(EvalError::MissingOperand));
    assert_eq!(
        eval(vec![number("1"), number("2"), plus(), minus()]),
        Err(EvalError::MissingOperand)
    );
}

#[test]
fn punctuation_in_a_postfix_stream_fails() {
    assert_eq!(eval(vec![open()]), Err(EvalError::StrayPunctuation));
    assert_eq!(eval(vec![number("1"), close()]), Err(EvalError::StrayPunctuation));
}

#[test]
fn first_failing_token_decides_the_error() {
    assert_eq!(eval(vec![plus(), open()]), Err(EvalError::MissingOperand));
    assert_eq!(eval(vec![open(), plus()]), Err(EvalError::StrayPunctuation));
}

#[test]
fn leftover_operands_fail() {
    assert_eq!(eval(vec![number("1"), number("2")]), Err(EvalError::NotOneValue));
    assert_eq!(eval(vec![]), Err(EvalError::NotOneValue));
}

#[test]
fn parse_of_no_tokens_is_silent() {
    assert_eq!(parse(tokenize("").unwrap()), None);
    assert_eq!(parse(tokenize("   ").unwrap()), None);
}

#[test]
fn parse_of_empty_parentheses_is_silent() {
    assert_eq!(parse(tokenize("()").unwrap()), None);
}

#[test]
fn parse_gives_the_term() {
    let result = parse(tokenize("(2 + 3) * 4").unwrap());
    assert_eq!(
        result,
        Some(Ok(node(
            Operation::Multiply,
            node(Operation::Add, leaf("2"), leaf("3")),
            leaf("4")
        )))
    );
    match result {
        Some(Ok(expr)) => assert_eq!(value(&expr), 20.0),
        _ => panic!("a term was expected"),
    }
}

#[test]
fn parse_tells_syntax_from_evaluation() {
    assert_eq!(
        parse(tokenize("(2 + 3").unwrap()),
        Some(Err(ParseError::Syntax(SyntaxError::UnmatchedLeftParenthesis)))
    );
    assert_eq!(
        parse(tokenize("2 + 3)").unwrap()),
        Some(Err(ParseError::Syntax(SyntaxError::UnmatchedRightParenthesis)))
    );
    assert_eq!(
        parse(tokenize("+").unwrap()),
        Some(Err(ParseError::Evaluation(EvalError::MissingOperand)))
    );
    assert_eq!(
        parse(tokenize("1 2").unwrap()),
        Some(Err(ParseError::Evaluation(EvalError::NotOneValue)))
    );
}

#[test]
fn error_messages() {
    assert_eq!(
        SyntaxError::UnmatchedLeftParenthesis.message(),
        "L'expression est mal parenthésée"
    );
    assert_eq!(
        SyntaxError::UnmatchedRightParenthesis.message(),
        "L'expression est mal parenthésée"
    );
    assert_eq!(EvalError::MissingOperand.message(), "L'expression est mal formée");
    assert_eq!(
        EvalError::StrayPunctuation.message(),
        "De la poncutation a été détectée là où elle ne devrait pas être, uh oh !"
    );
    assert_eq!(
        EvalError::NotOneValue.message(),
        "Il ne doit rester qu'un nombre dans la stack, eh"
    );
}

#[test]
fn postfix_holds_no_parenthesis_and_only_tokens_of_the_input() {
    let tokens = tokenize("((1 + 2) * (3 - 4)) / (5)").unwrap();
    let stream = to_npi(tokens.clone()).unwrap();
    for token in &stream {
        assert!(token.type_ != TokenType::LeftParenthesis);
        assert!(token.type_ != TokenType::RightParenthesis);
        assert!(tokens.contains(token));
    }
    assert_eq!(stream.len(), tokens.len() - 8);
}

#[test]
fn written_text_is_read_as_meant() {
    let result = parse(tokenize("1 - 2 * 3 - ( 4 + 5 ) / 6 ").unwrap());
    let expected = node(
        Operation::Subtract,
        node(
            Operation::Subtract,
            leaf("1"),
            node(Operation::Multiply, leaf("2"), leaf("3")),
        ),
        node(
            Operation::Divide,
            node(Operation::Add, leaf("4"), leaf("5")),
            leaf("6"),
        ),
    );
    assert_eq!(result, Some(Ok(expected)));
    assert_eq!(compute("1 - 2 * 3 - ( 4 + 5 ) / 6 "), -6.5);
}

#[test]
fn term_of_a_postfix_order_is_the_term() {
    let term = node(
        Operation::Divide,
        leaf("9"),
        node(Operation::Subtract, leaf("4"), leaf("1")),
    );
    let stream = vec![number("9"), number("4"), number("1"), minus(), over()];
    assert_eq!(eval(stream), Ok(term));
}
