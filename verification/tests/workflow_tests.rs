//! Tests of the sorting-workflow parsers and rules.

use advent_solvers::workflows::{is_terminal, CmpType, Part, Rule, Workflow};

#[test]
fn test_part_parse() {
    let p = Part::parse("{x=787,m=2655,a=1222,s=2876}").unwrap();
    assert_eq!(p, Part { x: 787, m: 2655, a: 1222, s: 2876 });
    assert_eq!(p.sum(), 7540);
    assert!(Part::parse("{x=787,q=1}").is_none());
    assert!(Part::parse("x=787").is_none());
}

#[test]
fn test_rule_parse_and_match() {
    let r = Rule::parse("a<2006:qkq").unwrap();
    assert_eq!(r.lhs, b'a');
    assert_eq!(r.cmp, CmpType::Lesser);
    assert_eq!(r.rhs, 2006);
    assert_eq!(r.dst, b"qkq".to_vec());
    let part = Part { x: 787, m: 2655, a: 1222, s: 2876 };
    assert!(r.matches(&part));
    let r2 = Rule::parse("m>2090:A").unwrap();
    assert!(r2.matches(&part));
    let r3 = Rule::parse("x>3000:R").unwrap();
    assert!(!r3.matches(&part));
    assert!(Rule::parse("q<1:x").is_none());
}

#[test]
fn test_workflow_parse() {
    let wf = Workflow::parse("px{a<2006:qkq,m>2090:A,rfg}").unwrap();
    assert_eq!(wf.name, b"px".to_vec());
    assert_eq!(wf.rules.len(), 2);
    assert_eq!(wf.default, b"rfg".to_vec());
    assert!(Workflow::parse("px").is_none());
}

#[test]
fn test_is_terminal() {
    assert_eq!(is_terminal("A"), Some(true));
    assert_eq!(is_terminal("R"), Some(false));
    assert_eq!(is_terminal("rfg"), None);
}
