use wminspect::filter::{
    parse_rule, scan_tokens, Action, FilterRule, Matcher, Op, Predicate, Token, Tokens,
};

#[test]
fn test_parse_rule() {
    let mut tokens = Tokens::new();
    tokens.push_back(Token::StrLit("name".to_string()));
    tokens.push_back(Token::OP(Op::Eq));
    tokens.push_back(Token::StrLit("dde-osd".to_string()));
    tokens.push_back(Token::EOT);

    let rule = parse_rule(&mut tokens);
    println!("{:?}", rule);
    assert!(rule.is_some());
}

#[test]
fn test_parse_rule2() {
    let mut tokens = Tokens::new();
    tokens.push_back(Token::StrLit("name".to_string()));
    tokens.push_back(Token::OP(Op::Eq));
    tokens.push_back(Token::StrLit("dde-osd".to_string()));
    tokens.push_back(Token::COLON);
    tokens.push_back(Token::ACTION(Action::Pin));

    tokens.push_back(Token::COMMA);

    tokens.push_back(Token::StrLit("id".to_string()));
    tokens.push_back(Token::OP(Op::Eq));
    tokens.push_back(Token::StrLit("0x8a000??".to_string()));
    tokens.push_back(Token::EOT);

    let rule = parse_rule(&mut tokens);
    println!("{:?}", rule);
    assert!(rule.is_some());
    assert_eq!(rule.unwrap().len(), 2);
}

#[test]
fn test_parse_rule3() {
    let mut tokens = Tokens::new();
    tokens.push_back(Token::StrLit("attrs".to_string()));
    tokens.push_back(Token::DOT);
    tokens.push_back(Token::StrLit("map_state".to_string()));
    tokens.push_back(Token::OP(Op::Eq));
    tokens.push_back(Token::StrLit("Viewable".to_string()));
    tokens.push_back(Token::COLON);
    tokens.push_back(Token::ACTION(Action::Pin));

    tokens.push_back(Token::COMMA);

    tokens.push_back(Token::StrLit("id".to_string()));
    tokens.push_back(Token::OP(Op::Eq));
    tokens.push_back(Token::StrLit("0x8a000??".to_string()));
    tokens.push_back(Token::EOT);

    let rule = parse_rule(&mut tokens);
    println!("{:?}", rule);
    assert!(rule.is_some());
    assert_eq!(rule.unwrap().len(), 2);
}

#[test]
fn test_parse_rule4() {
    let mut tokens = Tokens::new();
    tokens.push_back(Token::ALL);
    tokens.push_back(Token::LBRACE);
    tokens.push_back(Token::StrLit("attrs".to_string()));
    tokens.push_back(Token::DOT);
    tokens.push_back(Token::StrLit("map_state".to_string()));
    tokens.push_back(Token::OP(Op::Eq));
    tokens.push_back(Token::StrLit("Viewable".to_string()));
    tokens.push_back(Token::COMMA);
    tokens.push_back(Token::StrLit("geom".to_string()));
    tokens.push_back(Token::DOT);
    tokens.push_back(Token::StrLit("width".to_string()));
    tokens.push_back(Token::OP(Op::GE));
    tokens.push_back(Token::StrLit("400".to_string()));
    tokens.push_back(Token::RBRACE);
    tokens.push_back(Token::COLON);
    tokens.push_back(Token::ACTION(Action::Pin));

    tokens.push_back(Token::COMMA);

    tokens.push_back(Token::StrLit("id".to_string()));
    tokens.push_back(Token::OP(Op::Eq));
    tokens.push_back(Token::StrLit("0x8a000??".to_string()));
    tokens.push_back(Token::EOT);

    let rule = parse_rule(&mut tokens);
    println!("{:?}", rule);
    assert!(rule.is_some());
    assert_eq!(rule.unwrap().len(), 2);
}

#[test]
fn test_parse_flow() {
    let mut tokens = scan_tokens("any(name =dde?osd*, all(geom.x > 2, geom.width < 500));");
    println!("tokens: {:?}", tokens);
    assert_eq!(tokens.len(), 23);

    let rule = parse_rule(&mut tokens);
    println!("rule: {:?}", rule);
    assert!(rule.is_some());
    assert_eq!(rule.unwrap().len(), 1);
}

#[test]
fn test_parser_ast_equality() {
    let mut tokens1 = scan_tokens("name = example");
    let mut tokens2 = scan_tokens("name = example");

    let parsed1 = parse_rule(&mut tokens1).unwrap();
    let parsed2 = parse_rule(&mut tokens2).unwrap();

    assert_eq!(parsed1, parsed2);
}

#[test]
fn test_parser_with_actions() {
    let mut tokens = scan_tokens("name = test: pin");
    let parsed = parse_rule(&mut tokens).unwrap();
    assert_eq!(parsed.len(), 1);
    assert_eq!(parsed[0].action, Action::Pin);
}

#[test]
fn test_parser_multiple_rules() {
    let mut tokens = scan_tokens("name = test: pin; id = 123: filter");
    let parsed = parse_rule(&mut tokens).unwrap();
    assert_eq!(parsed.len(), 2);
    assert_eq!(parsed[0].action, Action::Pin);
    assert_eq!(parsed[1].action, Action::FilterOut);
}

#[test]
fn test_parser_nested_rules() {
    let mut tokens = scan_tokens("any(name = test, all(id = 123, geom.width > 400))");
    let parsed = parse_rule(&mut tokens).unwrap();
    assert_eq!(parsed.len(), 1);

    match &parsed[0].rule {
        FilterRule::Any(rules) => {
            assert_eq!(rules.len(), 2);
        }
        _ => panic!("Expected Any rule"),
    }
}

#[test]
fn test_parser_not_rule() {
    let mut tokens = scan_tokens("not(name = test)");
    let parsed = parse_rule(&mut tokens).unwrap();
    assert_eq!(parsed.len(), 1);

    match &parsed[0].rule {
        FilterRule::Not(_) => {
            // Success
        }
        _ => panic!("Expected Not rule"),
    }
}

#[test]
fn test_parse_single_name_rule() {
    // "name = dde*" parses to one statement: action filter-out, a single
    // comparison of the name against the wildcard "dde*".
    let mut tokens = scan_tokens("name = dde*");
    let parsed = parse_rule(&mut tokens).unwrap();
    assert_eq!(parsed.len(), 1);
    assert_eq!(parsed[0].action, Action::FilterOut);
    assert_eq!(
        parsed[0].rule,
        FilterRule::Single {
            pred: Predicate::Name,
            op: Op::Eq,
            matcher: Matcher::Wildcard("dde*".to_string()),
        }
    );
}

#[test]
fn test_parse_not_map_state_pin() {
    // "not(attrs.map_state = Viewable): pin;" parses to one pinned statement
    // negating a map-state comparison.
    let mut tokens = scan_tokens("not(attrs.map_state = Viewable): pin;");
    let parsed = parse_rule(&mut tokens).unwrap();
    assert_eq!(parsed.len(), 1);
    assert_eq!(parsed[0].action, Action::Pin);
    match &parsed[0].rule {
        FilterRule::Not(inner) => match inner.as_ref() {
            FilterRule::Single { pred, op, matcher } => {
                assert_eq!(*pred, Predicate::Attr("map_state".to_string()));
                assert_eq!(*op, Op::Eq);
                assert_eq!(
                    *matcher,
                    Matcher::MapStateValue(wminspect::types::MapState::Viewable)
                );
            }
            _ => panic!("Expected a single comparison under the negation"),
        },
        _ => panic!("Expected Not rule"),
    }
}

#[test]
fn test_parse_nested_any_all() {
    // "any(name = test*, all(geom.width > 400, geom.height > 300))" parses
    // to one statement wrapping a disjunction whose second child is a
    // conjunction of two geometry comparisons.
    let mut tokens = scan_tokens("any(name = test*, all(geom.width > 400, geom.height > 300))");
    let parsed = parse_rule(&mut tokens).unwrap();
    assert_eq!(parsed.len(), 1);
    match &parsed[0].rule {
        FilterRule::Any(children) => {
            assert_eq!(children.len(), 2);
            match &children[1] {
                FilterRule::All(grandchildren) => {
                    assert_eq!(grandchildren.len(), 2);
                    assert_eq!(
                        grandchildren[0],
                        FilterRule::Single {
                            pred: Predicate::Geom("width".to_string()),
                            op: Op::GT,
                            matcher: Matcher::IntegralValue(400),
                        }
                    );
                    assert_eq!(
                        grandchildren[1],
                        FilterRule::Single {
                            pred: Predicate::Geom("height".to_string()),
                            op: Op::GT,
                            matcher: Matcher::IntegralValue(300),
                        }
                    );
                }
                _ => panic!("Expected All as the second child"),
            }
        }
        _ => panic!("Expected Any rule"),
    }
}

#[test]
fn test_parse_rejects_bad_map_state() {
    let mut tokens = scan_tokens("attrs.map_state = sideways");
    assert!(parse_rule(&mut tokens).is_none());
}

#[test]
fn test_parse_rejects_unknown_predicate() {
    let mut tokens = scan_tokens("frame = 3");
    assert!(parse_rule(&mut tokens).is_none());
}

#[test]
fn test_parse_unparsable_geometry_value_is_zero() {
    let mut tokens = scan_tokens("geom.x > banana");
    let parsed = parse_rule(&mut tokens).unwrap();
    assert_eq!(
        parsed[0].rule,
        FilterRule::Single {
            pred: Predicate::Geom("x".to_string()),
            op: Op::GT,
            matcher: Matcher::IntegralValue(0),
        }
    );
}

#[test]
fn test_parse_id_values() {
    assert_eq!(wminspect::text::parse_id("0x8a"), 0x8a);
    assert_eq!(wminspect::text::parse_id("0X8A"), 0x8a);
    assert_eq!(wminspect::text::parse_id("123"), 123);
    assert_eq!(wminspect::text::parse_id("bogus"), 0);
    assert_eq!(wminspect::text::parse_id("99999999999999"), 0);
}
