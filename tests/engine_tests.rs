use filter_engine::datatypes::rule::evaluate;
use filter_engine::datatypes::{Action, Effects, ProxyDirection, Rule};
use filter_engine::engine::{
    create_filterengine_from_ruleset, parse_rulestring, rules_lint, strip_comments,
};
use filter_engine::parser::parse;

fn no_flows() -> Vec<String> {
    Vec::new()
}

#[test]
fn scenario_accept_get_on_443() {
    let rules = parse(r#"ACCEPT : IN(443) : "GET";"#.to_string()).unwrap();
    let e = evaluate(&rules, b"GET / HTTP/1.1", 443, 50000, ProxyDirection::InBound, &no_flows());
    assert_eq!(e.action, Some(Action::Accept(None)));
    assert!(e.tags.is_empty());
    assert!(e.flow_sets.is_empty());
    let other = evaluate(&rules, b"GET / HTTP/1.1", 80, 50000, ProxyDirection::InBound, &no_flows());
    assert_eq!(other, Effects::empty());
}

#[test]
fn scenario_drop_evil_outbound() {
    let rules = parse(r#"DROP("bad") TAGS("mal") : OUT(,8080) : "evil";"#.to_string()).unwrap();
    let e = evaluate(&rules, b"some evil payload", 1234, 8080, ProxyDirection::OutBound, &no_flows());
    assert_eq!(e.action, Some(Action::Drop(Some("bad".to_string()))));
    assert_eq!(e.tags, vec!["mal".to_string()]);
    let miss = evaluate(&rules, b"some good payload", 1234, 8080, ProxyDirection::OutBound, &no_flows());
    assert_eq!(miss.action, None);
}

#[test]
fn scenario_worse_of_two_rules() {
    let rules = parse("ACCEPT : IN : \"a\"; ALERT : IN : \"b\";".to_string()).unwrap();
    let e = evaluate(&rules, b"xaxbx", 1, 2, ProxyDirection::InBound, &no_flows());
    assert_eq!(e.action, Some(Action::Alert(None)));
}

#[test]
fn scenario_flow_set_matcher() {
    let rules = parse(r#"ALERT TAGS("again") : IN : SET("seen");"#.to_string()).unwrap();
    let e = evaluate(&rules, b"anything", 1, 2, ProxyDirection::InBound, &no_flows());
    assert_eq!(e.action, None);
    let flows = vec!["seen".to_string()];
    let e = evaluate(&rules, b"anything", 1, 2, ProxyDirection::InBound, &flows);
    assert_eq!(e.action, Some(Action::Alert(None)));
    assert_eq!(e.tags, vec!["again".to_string()]);
}

#[test]
fn direction_gate() {
    let rules = parse(r#"DROP : IN : "";"#.to_string()).unwrap();
    for port in [0u16, 80, 443, 65535] {
        assert!(rules[0].apply(b"x", port, port, ProxyDirection::OutBound, &no_flows()).is_none());
        assert!(rules[0].apply(b"x", port, port, ProxyDirection::InBound, &no_flows()).is_some());
    }
}

#[test]
fn port_gate() {
    let rules = parse(r#"DROP : IN(80) : "";"#.to_string()).unwrap();
    assert!(rules[0].apply(b"", 80, 1, ProxyDirection::InBound, &no_flows()).is_some());
    assert!(rules[0].apply(b"", 81, 1, ProxyDirection::InBound, &no_flows()).is_none());
    let all = parse(r#"DROP : IN : "";"#.to_string()).unwrap();
    for port in [0u16, 1, 80, 65535] {
        assert!(all[0].apply(b"", port, 7, ProxyDirection::InBound, &no_flows()).is_some());
    }
}

#[test]
fn regex_runs_on_raw_bytes() {
    let rules = parse(r#"DROP : IN : "(?-u)\xff\x00";"#.to_string()).unwrap();
    assert!(rules[0].apply(&[1, 0xff, 0, 2], 1, 1, ProxyDirection::InBound, &no_flows()).is_some());
    assert!(rules[0].apply(&[1, 0xff, 1, 2], 1, 1, ProxyDirection::InBound, &no_flows()).is_none());
}

#[test]
fn all_matchers_must_hold() {
    let rules = parse(r#"ALERT : IN : "a" SET("f");"#.to_string()).unwrap();
    let flows = vec!["f".to_string()];
    assert!(rules[0].apply(b"a", 1, 1, ProxyDirection::InBound, &flows).is_some());
    assert!(rules[0].apply(b"b", 1, 1, ProxyDirection::InBound, &flows).is_none());
    assert!(rules[0].apply(b"a", 1, 1, ProxyDirection::InBound, &no_flows()).is_none());
}

#[test]
fn empty_rule_matches_inbound() {
    let r = Rule::empty();
    let e = r.apply(b"", 5, 6, ProxyDirection::InBound, &no_flows()).unwrap();
    assert_eq!(e.action, Some(Action::Accept(Some(String::new()))));
    assert!(r.apply(b"", 5, 6, ProxyDirection::OutBound, &no_flows()).is_none());
}

#[test]
fn effects_of_a_rule_fold_from_the_last() {
    let rules = parse(r#"TAGS("a") TAGS("b") ALERT : IN : "";"#.to_string()).unwrap();
    assert_eq!(rules[0].effects.tags, vec!["b".to_string(), "a".to_string()]);
    assert_eq!(rules[0].effects.action, Some(Action::Alert(None)));
}

#[test]
fn comments_and_blank_lines_are_stripped() {
    let text = "# header\n\nACCEPT : IN : \"a\";\r\n  # note\nDROP : OUT : \"b\";";
    assert_eq!(strip_comments(text), " ACCEPT : IN : \"a\"; DROP : OUT : \"b\";");
    assert_eq!(parse_rulestring(text).unwrap().len(), 2);
    assert!(rules_lint(text).is_ok());
    assert!(rules_lint("drop : IN : \"x\";").is_err());
}

#[test]
fn engine_filters() {
    let engine = create_filterengine_from_ruleset(
        "ALERT TAGS(\"t\") : IN : \"x\";\nDROP FLOWS(\"f\") : IN(22) : \"x\";".to_string(),
    )
    .unwrap();
    assert_eq!(engine.rules().len(), 2);
    let e = engine.filter(22, 9, ProxyDirection::InBound, b"xx", &no_flows());
    assert_eq!(e.action, Some(Action::Drop(None)));
    assert_eq!(e.tags, vec!["t".to_string()]);
    assert_eq!(e.flow_sets, vec!["f".to_string()]);
    let e = engine.filter(23, 9, ProxyDirection::InBound, b"xx", &no_flows());
    assert_eq!(e.action, Some(Action::Alert(None)));
    assert!(create_filterengine_from_ruleset("nonsense;".to_string()).is_err());
}

#[test]
fn decide_on_given_pattern_results() {
    let rules = parse(r#"ALERT : IN : "a" SET("f");"#.to_string()).unwrap();
    let flows = vec!["f".to_string()];
    let hit = rules[0].decide(&vec![true, false], 1, 1, ProxyDirection::InBound, &flows);
    assert_eq!(hit.unwrap().action, Some(Action::Alert(None)));
    assert!(rules[0].decide(&vec![false, true], 1, 1, ProxyDirection::InBound, &flows).is_none());
    assert!(rules[0].decide(&vec![true, true], 1, 1, ProxyDirection::InBound, &no_flows()).is_none());
    assert!(rules[0].decide(&vec![true, true], 1, 1, ProxyDirection::OutBound, &flows).is_none());
}
