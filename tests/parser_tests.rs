use filter_engine::datatypes::{Action, Direction, Effect, RulePort, RulePorts};
use filter_engine::grammar::{ErrorKind, SyntaxError};
use filter_engine::parser::{
    parse, parse_accept, parse_action, parse_alert, parse_drop, parse_effect, parse_effects,
    parse_matchers, parse_matchers_list, parse_quoted, parse_rule, parse_rules,
};

#[test]
fn parse_drop_positive() {
    let (action, _) = parse_drop("DROP").expect("parser error");

    assert_eq!(action, Action::Drop(None));
}

#[test]
fn parse_drop_negative() {
    parse_drop("drop").expect_err("Lowercase drop should not be accepted");
}

#[test]
fn parse_alert_positive() {
    let (action, _) = parse_alert(r#"ALERT("de\"f")"#).expect("parser error");

    assert_eq!(action, Action::Alert(Some(r#"de"f"#.to_string())));
}

#[test]
fn parse_alert_negative() {
    parse_alert("alert").expect_err("alert should contain tags");
}

#[test]
fn parse_accept_positive() {
    let (action, _) = parse_accept("ACCEPT").expect("parser error");

    assert_eq!(action, Action::Accept(None));
}

#[test]
fn parse_accept_negative() {
    parse_accept("accept").expect_err("Lowercase drop should not be accepted");
}

#[test]
fn action_with_message_and_length() {
    assert_eq!(
        parse_drop(r#"DROP("bad") rest"#),
        Ok((Action::Drop(Some("bad".to_string())), 11))
    );
    assert_eq!(parse_accept("ACCEPT:"), Ok((Action::Accept(None), 6)));
}

#[test]
fn action_message_must_be_closed() {
    assert_eq!(
        parse_alert(r#"ALERT("abc", "def")"#),
        Err(SyntaxError { position: 11, kind: ErrorKind::ExpectedChar(')') })
    );
}

#[test]
fn parse_action_picks_keyword() {
    let (e, n) = parse_action("ALERT").unwrap();
    assert_eq!(e, Effect::Action(Action::Alert(None)));
    assert_eq!(n, 5);
    assert_eq!(
        parse_action("BLOCK"),
        Err(SyntaxError { position: 0, kind: ErrorKind::ExpectedEffect })
    );
}

#[test]
fn quoted_unescapes_quote_and_backslash_only() {
    let (s, n) = parse_quoted(r#""a\"b\\c\d" tail"#).unwrap();
    assert_eq!(s, r#"a"b\c\d"#);
    assert_eq!(n, 11);
    let (empty, m) = parse_quoted(r#""""#).unwrap();
    assert_eq!(empty, "");
    assert_eq!(m, 2);
}

#[test]
fn quoted_errors() {
    assert_eq!(
        parse_quoted("abc"),
        Err(SyntaxError { position: 0, kind: ErrorKind::ExpectedChar('"') })
    );
    assert_eq!(
        parse_quoted(r#""abc"#),
        Err(SyntaxError { position: 4, kind: ErrorKind::ExpectedChar('"') })
    );
    assert_eq!(
        parse_quoted(r#""ab\"#),
        Err(SyntaxError { position: 4, kind: ErrorKind::ExpectedChar('"') })
    );
}

#[test]
fn effect_tags_and_flows() {
    let (e, n) = parse_effect(r#"TAGS( "a" , "b" )"#).unwrap();
    assert_eq!(e, Effect::Tag(vec!["a".to_string(), "b".to_string()]));
    assert_eq!(n, 17);
    let (f, _) = parse_effect(r#"FLOWS()"#).unwrap();
    assert_eq!(f, Effect::FlowSet(vec![]));
    assert_eq!(
        parse_effect(r#"TAGS("a",)"#),
        Err(SyntaxError { position: 9, kind: ErrorKind::ExpectedChar('"') })
    );
}

#[test]
fn effects_list_stops_before_colon() {
    let (effects, n) = parse_effects(r#"DROP TAGS("x")  : IN"#).unwrap();
    assert_eq!(
        effects,
        vec![Effect::Action(Action::Drop(None)), Effect::Tag(vec!["x".to_string()])]
    );
    assert_eq!(n, 14);
}

#[test]
fn matchers_lists() {
    let (ms, n) = parse_matchers_list(r#""a+" SET("seen") ;"#).unwrap();
    assert_eq!(ms.len(), 2);
    assert_eq!(n, 16);
    let (pm, k) = parse_matchers(r#"( "x" )"#).unwrap();
    assert_eq!(pm.len(), 1);
    assert_eq!(k, 7);
    assert_eq!(
        parse_matchers_list("X").err(),
        Some(SyntaxError { position: 0, kind: ErrorKind::ExpectedMatcher })
    );
}

#[test]
fn invalid_regex_is_a_parse_error() {
    assert_eq!(
        parse_matchers_list(r#""(unclosed""#).err(),
        Some(SyntaxError { position: 0, kind: ErrorKind::InvalidPattern })
    );
    assert!(parse(r#"ACCEPT : IN : "[a-";"#.to_string()).is_err());
}

#[test]
fn rule_directions_and_ports() {
    let r = parse_rule(r#"ACCEPT : IN(443) : "GET";"#).unwrap();
    assert_eq!(
        r.direction,
        Direction::InBound(RulePorts { ours: RulePort::Specific(443), theirs: RulePort::All })
    );
    let r = parse_rule(r#"DROP : OUT ( 1 , 2 ) : "x";"#).unwrap();
    assert_eq!(
        r.direction,
        Direction::OutBound(RulePorts { ours: RulePort::Specific(1), theirs: RulePort::Specific(2) })
    );
    let r = parse_rule(r#"DROP : OUT(,8080) : "x";"#).unwrap();
    assert_eq!(
        r.direction,
        Direction::OutBound(RulePorts { ours: RulePort::All, theirs: RulePort::Specific(8080) })
    );
    let r = parse_rule(r#"DROP : IN : "x";"#).unwrap();
    assert_eq!(r.direction, Direction::InBound(RulePorts { ours: RulePort::All, theirs: RulePort::All }));
}

#[test]
fn port_out_of_range() {
    assert_eq!(
        parse_rule(r#"DROP : IN(65536) : "x";"#).err(),
        Some(SyntaxError { position: 10, kind: ErrorKind::PortOutOfRange })
    );
    assert!(parse_rule(r#"DROP : IN(65535) : "x";"#).is_ok());
}

#[test]
fn rule_errors() {
    assert_eq!(
        parse_rule(r#"ACCEPT : IN : "a""#).err(),
        Some(SyntaxError { position: 17, kind: ErrorKind::ExpectedChar(';') })
    );
    assert_eq!(
        parse_rule(r#"ACCEPT : IN : "a" X;"#).err(),
        Some(SyntaxError { position: 18, kind: ErrorKind::ExpectedMatcher })
    );
    assert_eq!(
        parse_rule(r#"ACCEPT : UP : "a";"#).err(),
        Some(SyntaxError { position: 9, kind: ErrorKind::ExpectedDirection })
    );
    assert_eq!(
        parse_rule(r#"ACCEPT IN : "a";"#).err(),
        Some(SyntaxError { position: 7, kind: ErrorKind::ExpectedEffect })
    );
    assert_eq!(
        parse_rule(r#"ACCEPT : IN "a";"#).err(),
        Some(SyntaxError { position: 12, kind: ErrorKind::ExpectedChar(':') })
    );
    assert_eq!(
        parse_rule(r#"ACCEPT : IN : "a""b";"#).err(),
        Some(SyntaxError { position: 17, kind: ErrorKind::SuperfluousData })
    );
}

#[test]
fn whitespace_before_semicolon_is_accepted() {
    assert!(parse_rule("ACCEPT : IN : \"a\" \n;").is_ok());
}

#[test]
fn ruleset_keeps_order() {
    let rules = parse("ACCEPT : IN : \"a\";\n DROP : OUT : \"b\" ;".to_string()).unwrap();
    assert_eq!(rules.len(), 2);
    assert!(matches!(rules[0].direction, Direction::InBound(_)));
    assert!(matches!(rules[1].direction, Direction::OutBound(_)));
    assert_eq!(parse("   ".to_string()).unwrap().len(), 0);
}

#[test]
fn failing_rule_fails_the_whole_set() {
    let mut text = String::new();
    for i in 0..10 {
        text.push_str(&format!("ALERT(\"r{}\") : IN : \"x{}\";\n", i, i));
    }
    assert_eq!(parse(text.clone()).unwrap().len(), 10);
    text.push_str("alert : IN : \"bad\";");
    let failures = parse_rules(&text).err().unwrap();
    assert_eq!(failures.len(), 1);
    assert_eq!(failures[0].rule, "alert : IN : \"bad\";");
    assert_eq!(failures[0].error, SyntaxError { position: 0, kind: ErrorKind::ExpectedEffect });
    assert!(parse(text).is_err());
}

#[test]
fn error_report_text() {
    let msg = parse("ACCEPT : IN : \"a\"".to_string()).err().unwrap();
    let expected = format!(
        "Error parsing rules:\nError in rule: ACCEPT : IN : \"a\"\nACCEPT : IN : \"a\"\n{}^\nexpected ';' at character 17",
        " ".repeat(17)
    );
    assert_eq!(msg, expected);
}

#[test]
fn parsing_twice_gives_the_same_rules() {
    let text = r#"DROP("bad") TAGS("mal") : OUT(,8080) : "evil"; ACCEPT : IN(443) : "GET";"#;
    let a = parse(text.to_string()).unwrap();
    let b = parse(text.to_string()).unwrap();
    assert_eq!(format!("{:?}", a), format!("{:?}", b));
}
