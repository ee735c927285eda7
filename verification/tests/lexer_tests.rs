use calculatrice::lexer::{sym_to_token, tokenize, LexError, Token, TokenFamily, TokenType};

fn tok(type_: TokenType, value: &str) -> Token {
    Token { type_, value: value.to_string() }
}

fn lit(value: &str) -> Token {
    tok(TokenType::Int, value)
}

#[test]
fn family_of_each_kind() {
    assert_eq!(lit("7").family(), TokenFamily::Literal);
    assert_eq!(tok(TokenType::Plus, "+").family(), TokenFamily::Operator);
    assert_eq!(tok(TokenType::Minus, "-").family(), TokenFamily::Operator);
    assert_eq!(tok(TokenType::Multiply, "*").family(), TokenFamily::Operator);
    assert_eq!(tok(TokenType::Divide, "/").family(), TokenFamily::Operator);
    assert_eq!(tok(TokenType::LeftParenthesis, "(").family(), TokenFamily::Punctuation);
    assert_eq!(tok(TokenType::RightParenthesis, ")").family(), TokenFamily::Punctuation);
}

#[test]
fn family_ignores_the_text() {
    assert_eq!(tok(TokenType::Plus, "+").family(), tok(TokenType::Plus, "anything").family());
    assert_eq!(lit("1").family(), lit("987").family());
    let token = lit("42");
    assert_eq!(token.family(), token.family());
}

#[test]
fn symbols_give_their_tokens() {
    assert_eq!(sym_to_token('+'), Some(tok(TokenType::Plus, "+")));
    assert_eq!(sym_to_token('-'), Some(tok(TokenType::Minus, "-")));
    assert_eq!(sym_to_token('*'), Some(tok(TokenType::Multiply, "*")));
    assert_eq!(sym_to_token('/'), Some(tok(TokenType::Divide, "/")));
    assert_eq!(sym_to_token('('), Some(tok(TokenType::LeftParenthesis, "(")));
    assert_eq!(sym_to_token(')'), Some(tok(TokenType::RightParenthesis, ")")));
}

#[test]
fn other_characters_give_no_token() {
    assert_eq!(sym_to_token('5'), None);
    assert_eq!(sym_to_token(' '), None);
    assert_eq!(sym_to_token('&'), None);
    assert_eq!(sym_to_token('é'), None);
}

#[test]
fn clone_keeps_kind_and_text() {
    let token = lit("2024");
    assert_eq!(token.clone(), token);
}

#[test]
fn empty_text_has_no_tokens() {
    assert_eq!(tokenize(""), Ok(vec![]));
}

#[test]
fn blank_text_has_no_tokens() {
    assert_eq!(tokenize("   "), Ok(vec![]));
    assert_eq!(tokenize(" \n \n"), Ok(vec![]));
}

#[test]
fn digits_in_a_row_make_one_literal() {
    assert_eq!(tokenize("123"), Ok(vec![lit("123")]));
    assert_eq!(tokenize("007"), Ok(vec![lit("007")]));
}

#[test]
fn a_blank_ends_a_literal() {
    assert_eq!(tokenize("12 3"), Ok(vec![lit("12"), lit("3")]));
    assert_eq!(tokenize("4\n56"), Ok(vec![lit("4"), lit("56")]));
}

#[test]
fn simple_sum_is_three_tokens() {
    assert_eq!(
        tokenize("2 + 3\n"),
        Ok(vec![lit("2"), tok(TokenType::Plus, "+"), lit("3")])
    );
}

#[test]
fn every_symbol_is_recognised() {
    assert_eq!(
        tokenize("(1*2)/3-4"),
        Ok(vec![
            tok(TokenType::LeftParenthesis, "("),
            lit("1"),
            tok(TokenType::Multiply, "*"),
            lit("2"),
            tok(TokenType::RightParenthesis, ")"),
            tok(TokenType::Divide, "/"),
            lit("3"),
            tok(TokenType::Minus, "-"),
            lit("4"),
        ])
    );
}

#[test]
fn leading_minus_gets_a_zero() {
    assert_eq!(
        tokenize("-5"),
        Ok(vec![lit("0"), tok(TokenType::Minus, "-"), lit("5")])
    );
}

#[test]
fn leading_plus_gets_a_zero() {
    assert_eq!(tokenize("+"), Ok(vec![lit("0"), tok(TokenType::Plus, "+")]));
}

#[test]
fn sign_after_opening_parenthesis_gets_a_zero() {
    assert_eq!(
        tokenize("(-5)"),
        Ok(vec![
            tok(TokenType::LeftParenthesis, "("),
            lit("0"),
            tok(TokenType::Minus, "-"),
            lit("5"),
            tok(TokenType::RightParenthesis, ")"),
        ])
    );
}

#[test]
fn sign_after_operator_gets_a_zero() {
    assert_eq!(
        tokenize("2 * -5"),
        Ok(vec![
            lit("2"),
            tok(TokenType::Multiply, "*"),
            lit("0"),
            tok(TokenType::Minus, "-"),
            lit("5"),
        ])
    );
}

#[test]
fn sign_after_operand_gets_no_zero() {
    assert_eq!(
        tokenize("(1)-2+3"),
        Ok(vec![
            tok(TokenType::LeftParenthesis, "("),
            lit("1"),
            tok(TokenType::RightParenthesis, ")"),
            tok(TokenType::Minus, "-"),
            lit("2"),
            tok(TokenType::Plus, "+"),
            lit("3"),
        ])
    );
}

#[test]
fn star_and_slash_get_no_zero() {
    assert_eq!(tokenize("*"), Ok(vec![tok(TokenType::Multiply, "*")]));
    assert_eq!(
        tokenize("(/"),
        Ok(vec![tok(TokenType::LeftParenthesis, "("), tok(TokenType::Divide, "/")])
    );
}

#[test]
fn invalid_symbol_is_reported() {
    assert_eq!(tokenize("2 & 3"), Err(LexError { symbol: '&' }));
}

#[test]
fn first_invalid_symbol_wins() {
    assert_eq!(tokenize("1 + x * y"), Err(LexError { symbol: 'x' }));
    assert_eq!(tokenize("\t1"), Err(LexError { symbol: '\t' }));
    assert_eq!(tokenize("1.5"), Err(LexError { symbol: '.' }));
}

#[test]
fn non_ascii_digit_is_rejected() {
    assert_eq!(tokenize("٣"), Err(LexError { symbol: '٣' }));
}

#[test]
fn lex_error_message_names_the_symbol() {
    let message = LexError { symbol: '&' }.message();
    assert_eq!(message, "Utilisation d'un symbole interdit: &");
    assert!(message.ends_with('&'));
}

#[test]
fn tokens_spelled_with_spaces_scan_back() {
    let tokens = vec![
        tok(TokenType::LeftParenthesis, "("),
        lit("12"),
        tok(TokenType::Minus, "-"),
        lit("7"),
        tok(TokenType::RightParenthesis, ")"),
        tok(TokenType::Multiply, "*"),
        lit("305"),
        tok(TokenType::Plus, "+"),
        lit("0"),
    ];
    let mut text = String::new();
    for token in &tokens {
        text.push_str(&token.value);
        text.push(' ');
    }
    assert_eq!(text, "( 12 - 7 ) * 305 + 0 ");
    assert_eq!(tokenize(&text), Ok(tokens));
}

#[test]
fn every_sign_follows_an_operand() {
    let tokens = tokenize("-(-5*+3)--2/(+1)").unwrap();
    for (i, token) in tokens.iter().enumerate() {
        if token.type_ == TokenType::Plus || token.type_ == TokenType::Minus {
            assert!(i > 0);
            let before = tokens[i - 1].type_;
            assert!(before == TokenType::Int || before == TokenType::RightParenthesis);
        }
    }
}

#[test]
fn every_token_is_well_formed() {
    let tokens = tokenize("-(12+345)*6/7").unwrap();
    for token in &tokens {
        match token.type_ {
            TokenType::Int => {
                assert!(!token.value.is_empty());
                assert!(token.value.chars().all(|c| ('0'..='9').contains(&c)));
            }
            TokenType::Plus => assert_eq!(token.value, "+"),
            TokenType::Minus => assert_eq!(token.value, "-"),
            TokenType::Multiply => assert_eq!(token.value, "*"),
            TokenType::Divide => assert_eq!(token.value, "/"),
            TokenType::LeftParenthesis => assert_eq!(token.value, "("),
            TokenType::RightParenthesis => assert_eq!(token.value, ")"),
        }
    }
}
