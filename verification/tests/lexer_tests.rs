use kaleo::lexer::{LexError, Lexer, Token};

fn next_token(lexer: &mut Lexer) -> Token {
    lexer.next().unwrap().unwrap()
}

#[test]
fn scan_simple_def() {
    let input = "def";
    let mut lexer = Lexer::new(input);
    assert_eq!(next_token(&mut lexer), Token::Def);
}

#[test]
fn scan_simple_extern() {
    let input = "extern";
    let mut lexer = Lexer::new(input);
    assert_eq!(next_token(&mut lexer), Token::Extern);
}

#[test]
fn scan_simple_if() {
    let input = "if";
    let mut lexer = Lexer::new(input);
    assert_eq!(next_token(&mut lexer), Token::If);
}

#[test]
fn scan_simple_then() {
    let input = "then";
    let mut lexer = Lexer::new(input);
    assert_eq!(next_token(&mut lexer), Token::Then);
}

#[test]
fn scan_simple_else() {
    let input = "else";
    let mut lexer = Lexer::new(input);
    assert_eq!(next_token(&mut lexer), Token::Else);
}

#[test]
fn scan_simple_for() {
    let input = "for";
    let mut lexer = Lexer::new(input);
    assert_eq!(next_token(&mut lexer), Token::For);
}

#[test]
fn scan_simple_in() {
    let input = "in";
    let mut lexer = Lexer::new(input);
    assert_eq!(next_token(&mut lexer), Token::In);
}

#[test]
fn scan_simple_number() {
    let input = "42";
    let mut lexer = Lexer::new(input);
    let token = next_token(&mut lexer);
    assert_eq!(token, Token::Number("42".to_string()));
    match token {
        Token::Number(text) => assert_eq!(text.parse::<f64>().unwrap(), 42_f64),
        other => panic!("expected a number token, got {other:?}"),
    }
}

#[test]
fn scan_simple_identifier() {
    let input = "abcd";
    let mut lexer = Lexer::new(input);
    assert_eq!(next_token(&mut lexer), Token::Identifier(String::from("abcd")));
}

#[test]
fn scan_simple_op() {
    let input = "(";
    let mut lexer = Lexer::new(input);
    assert_eq!(next_token(&mut lexer), Token::Op('('));
}

#[test]
fn scan_strings() {
    let input = r#"  hello   1.42
       +-    for  def  extern   in
        if  else then "#;
    let mut lexer = Lexer::new(input);
    assert_eq!(next_token(&mut lexer), Token::Identifier("hello".to_string()));
    let number = next_token(&mut lexer);
    assert_eq!(number, Token::Number("1.42".to_string()));
    match number {
        Token::Number(text) => assert_eq!(text.parse::<f64>().unwrap(), 1.42),
        other => panic!("expected a number token, got {other:?}"),
    }
    assert_eq!(next_token(&mut lexer), Token::Op('+'));
    assert_eq!(next_token(&mut lexer), Token::Op('-'));
    assert_eq!(next_token(&mut lexer), Token::For);
    assert_eq!(next_token(&mut lexer), Token::Def);
    assert_eq!(next_token(&mut lexer), Token::Extern);
    assert_eq!(next_token(&mut lexer), Token::In);
    assert_eq!(next_token(&mut lexer), Token::If);
    assert_eq!(next_token(&mut lexer), Token::Else);
    assert_eq!(next_token(&mut lexer), Token::Then);
    assert!(lexer.next().is_none());
}

#[test]
fn scan_strings_with_comments() {
    let input = r#"  #comment 1
    hello  #comment 2
    # 1.42
    "#;
    let mut lexer = Lexer::new(input);
    assert_eq!(next_token(&mut lexer), Token::Identifier("hello".to_string()));
    assert!(lexer.next().is_none());
}

#[test]
fn scan_overload_keywords() {
    let mut lexer = Lexer::new("var unary binary");
    assert_eq!(next_token(&mut lexer), Token::Var);
    assert_eq!(next_token(&mut lexer), Token::Unary);
    assert_eq!(next_token(&mut lexer), Token::Binary);
    assert!(lexer.next().is_none());
}

#[test]
fn scan_blank_input_yields_no_tokens() {
    let mut lexer = Lexer::new("   \t\n  # only a comment\n# another\n   ");
    assert!(lexer.next().is_none());
    let (tokens, tail) = kaleo::lexer::tokenize("  # nothing here\n\t  ");
    assert!(tokens.is_empty());
    assert_eq!(tail, None);
}

#[test]
fn scan_keyword_prefix_is_identifier() {
    let mut lexer = Lexer::new("define extern7 form");
    assert_eq!(next_token(&mut lexer), Token::Identifier("define".to_string()));
    assert_eq!(next_token(&mut lexer), Token::Identifier("extern7".to_string()));
    assert_eq!(next_token(&mut lexer), Token::Identifier("form".to_string()));
    assert!(lexer.next().is_none());
}

#[test]
fn scan_malformed_number_is_recoverable() {
    let mut lexer = Lexer::new("1.2.3 ok");
    assert_eq!(
        lexer.next().unwrap(),
        Err(LexError::MalformedNumber("1.2.3".to_string()))
    );
    assert_eq!(next_token(&mut lexer), Token::Identifier("ok".to_string()));
    assert!(lexer.next().is_none());
}

#[test]
fn scan_dot_leading_number() {
    let mut lexer = Lexer::new(".5 5.");
    assert_eq!(next_token(&mut lexer), Token::Number(".5".to_string()));
    assert_eq!(next_token(&mut lexer), Token::Number("5.".to_string()));
    assert!(lexer.next().is_none());
}

#[test]
fn tokenize_reports_tail_error() {
    let (tokens, tail) = kaleo::lexer::tokenize("x + ..");
    assert_eq!(
        tokens,
        vec![
            Token::Identifier("x".to_string()),
            Token::Op('+'),
        ]
    );
    assert_eq!(tail, Some(LexError::MalformedNumber("..".to_string())));
}
