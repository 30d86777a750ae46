use wminspect::filter::{scan_tokens, Token, Op, Action};

#[test]
fn test_tokenizer_basic() {
    let tokens = scan_tokens("name = example");
    assert_eq!(tokens.len(), 4); // includes the end-of-input token
    assert_eq!(tokens[0], Token::StrLit("name".to_string()));
    assert_eq!(tokens[1], Token::OP(Op::Eq));
    assert_eq!(tokens[2], Token::StrLit("example".to_string()));
    assert_eq!(tokens[3], Token::EOT);
}

#[test]
fn test_tokenizer_operators() {
    let tokens = scan_tokens("id = 123");
    assert_eq!(tokens.len(), 4);
    assert_eq!(tokens[0], Token::StrLit("id".to_string()));
    assert_eq!(tokens[1], Token::OP(Op::Eq));
    assert_eq!(tokens[2], Token::StrLit("123".to_string()));
    assert_eq!(tokens[3], Token::EOT);
}

#[test]
fn test_tokenizer_complex() {
    let tokens = scan_tokens("geom.width >= 400");
    assert_eq!(tokens.len(), 6);
    assert_eq!(tokens[0], Token::StrLit("geom".to_string()));
    assert_eq!(tokens[1], Token::DOT);
    assert_eq!(tokens[2], Token::StrLit("width".to_string()));
    assert_eq!(tokens[3], Token::OP(Op::GE));
    assert_eq!(tokens[4], Token::StrLit("400".to_string()));
    assert_eq!(tokens[5], Token::EOT);
}

#[test]
fn test_tokenizer_keywords() {
    let tokens = scan_tokens("all(name = 'test')");
    assert_eq!(tokens.len(), 7);
    assert_eq!(tokens[0], Token::ALL);
    assert_eq!(tokens[1], Token::LBRACE);
    assert_eq!(tokens[2], Token::StrLit("name".to_string()));
    assert_eq!(tokens[3], Token::OP(Op::Eq));
    assert_eq!(tokens[4], Token::StrLit("test".to_string()));
    assert_eq!(tokens[5], Token::RBRACE);
    assert_eq!(tokens[6], Token::EOT);
}

#[test]
fn test_tokenizer_quoted_strings() {
    let tokens = scan_tokens("name = 'some complex string'");
    assert_eq!(tokens.len(), 4);
    assert_eq!(tokens[0], Token::StrLit("name".to_string()));
    assert_eq!(tokens[1], Token::OP(Op::Eq));
    assert_eq!(tokens[2], Token::StrLit("some complex string".to_string()));
    assert_eq!(tokens[3], Token::EOT);
}

#[test]
fn test_tokenizer_actions() {
    let tokens = scan_tokens("name = test: pin; id = 123: filter");
    let mut found_pin = false;
    let mut found_filter = false;

    for token in tokens {
        match token {
            Token::ACTION(Action::Pin) => found_pin = true,
            Token::ACTION(Action::FilterOut) => found_filter = true,
            _ => {}
        }
    }

    assert!(found_pin);
    assert!(found_filter);
}

#[test]
fn test_scan_tokens1() {
    let tokens = scan_tokens("not(attrs.map_state = Viewable): pin;");
    println!("{:?}", tokens);
    assert_eq!(tokens.len(), 12);
}

#[test]
fn test_scan_tokens2() {
    let tokens = scan_tokens("not(geom.x > 2, geom.width < 500): filter;");
    println!("{:?}", tokens);
    assert_eq!(tokens.len(), 18);
}

#[test]
fn test_scan_tokens3() {
    let tokens = scan_tokens("any(name =dde?osd, all(geom.x > 2, geom.width < 500));");
    println!("{:?}", tokens);
    assert_eq!(tokens.len(), 23);
}

#[test]
fn test_scan_tokens4() {
    let tokens = scan_tokens("not(name =dde?osd): pin; attrs.map_state=Viewable;");
    println!("{:?}", tokens);
    assert_eq!(tokens.len(), 16);
}

#[test]
fn test_scan_tokens5() {
    // compound string literal
    let tokens = scan_tokens("any(name = 'inside, this', name = \"name ; any\"): pin");
    println!("{:?}", tokens);
    assert_eq!(tokens.len(), 13);
}

#[test]
fn test_tokenizer_lowercases_literals() {
    let tokens = scan_tokens("NAME = DDE*");
    assert_eq!(tokens[0], Token::StrLit("name".to_string()));
    assert_eq!(tokens[2], Token::StrLit("dde*".to_string()));
}

#[test]
fn test_tokenizer_action_keyword_needs_action_position() {
    // A window literally named "pin" is never misread as an action outside
    // the action position.
    let tokens = scan_tokens("name = pin");
    assert_eq!(tokens[2], Token::StrLit("pin".to_string()));
    let tokens = scan_tokens("name = x: pin");
    assert_eq!(tokens[4], Token::ACTION(Action::Pin));
}

#[test]
fn test_tokenizer_operator_variants() {
    let tokens = scan_tokens("a <= b <> c < d > e");
    assert_eq!(tokens[1], Token::OP(Op::LE));
    assert_eq!(tokens[3], Token::OP(Op::Neq));
    assert_eq!(tokens[5], Token::OP(Op::LT));
    assert_eq!(tokens[7], Token::OP(Op::GT));
}
