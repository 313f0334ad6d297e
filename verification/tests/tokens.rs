use cfg::productionrule::ProductionRule;
use cfg::token::{clone_tokens, find_from, tokens_equal, Token};

fn t(name: &str) -> Token {
    Token::Terminal(name.to_string())
}

fn v(name: &str) -> Token {
    Token::Variable(name.to_string())
}

#[test]
fn token_kinds() {
    assert!(t("a").is_terminal());
    assert!(!t("a").is_variable());
    assert!(v("S").is_variable());
    assert!(!v("S").is_terminal());
}

#[test]
fn token_equality_is_structural() {
    assert_eq!(t("a"), t("a"));
    assert_ne!(t("a"), t("b"));
    assert_ne!(t("S"), v("S"));
    assert_eq!(v("S"), v("S").clone());
}

#[test]
fn token_lists() {
    let list = vec![t("a"), v("S"), t("b"), v("S")];
    assert!(tokens_equal(&list, &clone_tokens(&list)));
    assert!(!tokens_equal(&list, &vec![t("a"), v("S"), t("b")]));
    assert!(!tokens_equal(&list, &vec![t("a"), v("S"), t("b"), v("T")]));
    assert_eq!(find_from(&list, &v("S"), 0), 1);
    assert_eq!(find_from(&list, &v("S"), 2), 3);
    assert_eq!(find_from(&list, &v("S"), 4), 4);
    assert_eq!(find_from(&list, &t("c"), 0), 4);
}

#[test]
fn rule_contains_and_is_empty() {
    let rule = ProductionRule::Sequence(vec![t("a"), v("S"), t("b")]);
    assert!(rule.contains(&v("S")));
    assert!(rule.contains(&t("b")));
    assert!(!rule.contains(&t("S")));
    assert!(!rule.contains(&v("T")));
    assert!(!rule.is_empty());
    assert!(ProductionRule::Empty.is_empty());
    assert!(!ProductionRule::Empty.contains(&t("a")));
    assert_eq!(ProductionRule::default(), ProductionRule::Empty);
}

#[test]
fn rule_equality_and_clone() {
    let rule = ProductionRule::Sequence(vec![t("a"), v("S")]);
    assert_eq!(rule.clone(), rule);
    assert_ne!(rule, ProductionRule::Sequence(vec![t("a")]));
    assert_ne!(rule, ProductionRule::Empty);
}

#[test]
fn rule_variables_in_order() {
    let rule = ProductionRule::Sequence(vec![v("X"), t("a"), v("Y"), v("X"), t("b")]);
    assert_eq!(rule.get_variables(), vec![v("X"), v("Y"), v("X")]);
    let terminals = ProductionRule::Sequence(vec![t("a"), t("b")]);
    assert_eq!(terminals.get_variables(), Vec::<Token>::new());
}

#[test]
fn rule_remove_variable_takes_every_occurrence() {
    let mut rule = ProductionRule::Sequence(vec![v("X"), t("a"), v("Y"), v("X"), t("b")]);
    rule.remove_variable(&v("X"));
    assert_eq!(rule, ProductionRule::Sequence(vec![t("a"), v("Y"), t("b")]));
    rule.remove_variable(&v("Z"));
    assert_eq!(rule, ProductionRule::Sequence(vec![t("a"), v("Y"), t("b")]));
    let mut only = ProductionRule::Sequence(vec![v("X")]);
    only.remove_variable(&v("X"));
    assert_eq!(only, ProductionRule::Sequence(vec![]));
}

#[test]
fn rule_replace_nullable_variable() {
    let rule = ProductionRule::Sequence(vec![t("a"), v("X"), t("b")]);
    assert_eq!(
        rule.replace_nullable_variable(v("X")),
        vec![rule.clone(), ProductionRule::Sequence(vec![t("a"), t("b")])]
    );
    assert_eq!(rule.replace_nullable_variable(v("Y")), vec![rule.clone()]);
    assert_eq!(
        ProductionRule::Empty.replace_nullable_variable(v("X")),
        vec![ProductionRule::Empty]
    );
}

#[test]
fn rule_replace_nullable_variable_that_is_alone() {
    let rule = ProductionRule::Sequence(vec![v("X")]);
    assert_eq!(rule.replace_nullable_variable(v("X")), vec![rule.clone()]);
}

#[test]
fn rule_replace_nullable_variable_that_occurs_twice() {
    let rule = ProductionRule::Sequence(vec![t("a"), v("X"), t("b"), v("X"), t("c")]);
    assert_eq!(
        rule.replace_nullable_variable(v("X")),
        vec![rule.clone(), ProductionRule::Sequence(vec![t("a"), t("b")])]
    );
}
