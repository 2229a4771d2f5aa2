use regex_visualizer::regex_parser::{
    add_concatenation, precedence_of, skipped_characters, to_postfix,
};

fn concat(pattern: &str) -> String {
    add_concatenation(&pattern.to_string())
}

fn postfix(pattern: &str) -> Option<String> {
    to_postfix(&pattern.to_string())
}

#[test]
fn concatenation_between_literals() {
    assert_eq!(concat("abc"), "a.b.c");
    assert_eq!(concat("a"), "a");
    assert_eq!(concat(""), "");
}

#[test]
fn concatenation_around_parentheses() {
    assert_eq!(concat("a(b)c"), "a.(b).c");
    assert_eq!(concat("(a)(b)"), "(a).(b)");
    assert_eq!(concat("((a))"), "((a))");
}

#[test]
fn no_concatenation_around_alternation() {
    assert_eq!(concat("a|b"), "a|b");
    assert_eq!(concat("a|(b)"), "a|(b)");
    assert_eq!(concat("(a)|b"), "(a)|b");
}

#[test]
fn concatenation_after_postfix_operators() {
    assert_eq!(concat("a*b"), "a*.b");
    assert_eq!(concat("a+b"), "a+.b");
    assert_eq!(concat("a?b"), "a?.b");
    assert_eq!(concat("a*(b)"), "a*.(b)");
    assert_eq!(concat("a*+?"), "a*+?");
    assert_eq!(concat("a*|b"), "a*|b");
}

#[test]
fn no_concatenation_next_to_unknown_characters() {
    assert_eq!(concat("a b"), "a b");
    assert_eq!(concat("a\u{e9}b"), "a\u{e9}b");
}

#[test]
fn postfix_of_concatenation_and_alternation() {
    assert_eq!(postfix("a.b"), Some("ab.".to_string()));
    assert_eq!(postfix("a|b"), Some("ab|".to_string()));
    assert_eq!(postfix("a.b|c"), Some("ab.c|".to_string()));
    assert_eq!(postfix("a|b.c"), Some("abc.|".to_string()));
    assert_eq!(postfix("a.b.c"), Some("ab.c.".to_string()));
    assert_eq!(postfix("a|b|c"), Some("ab|c|".to_string()));
}

#[test]
fn postfix_of_unary_operators() {
    assert_eq!(postfix("a*"), Some("a*".to_string()));
    assert_eq!(postfix("a.b*"), Some("ab*.".to_string()));
    assert_eq!(postfix("a*.b"), Some("a*b.".to_string()));
    assert_eq!(postfix("a*+"), Some("a*+".to_string()));
    assert_eq!(postfix("a.b?"), Some("ab?.".to_string()));
    assert_eq!(postfix("a|b+"), Some("ab+|".to_string()));
}

#[test]
fn postfix_of_groups() {
    assert_eq!(postfix("(a|b).c"), Some("ab|c.".to_string()));
    assert_eq!(postfix("(a|b)*.c"), Some("ab|*c.".to_string()));
    assert_eq!(postfix("a.(b|c)"), Some("abc|.".to_string()));
    assert_eq!(postfix("((a))"), Some("a".to_string()));
    assert_eq!(postfix("()"), Some("".to_string()));
}

#[test]
fn postfix_of_empty_pattern() {
    assert_eq!(postfix(""), Some("".to_string()));
}

#[test]
fn postfix_rejects_unmatched_parentheses() {
    assert_eq!(postfix("(a"), None);
    assert_eq!(postfix("a)"), None);
    assert_eq!(postfix("(a|b"), None);
    assert_eq!(postfix("a.b)|c"), None);
    assert_eq!(postfix(")("), None);
}

#[test]
fn operator_precedence() {
    assert_eq!(precedence_of('*'), 10);
    assert_eq!(precedence_of('+'), 10);
    assert_eq!(precedence_of('?'), 10);
    assert_eq!(precedence_of('.'), 5);
    assert_eq!(precedence_of('|'), 0);
}

#[test]
fn skipped_characters_are_those_outside_the_alphabet() {
    assert_eq!(skipped_characters(&"a b\u{e9}(c)\n*".to_string()), vec![' ', '\u{e9}', '\n']);
    assert_eq!(skipped_characters(&"(a|b)*".to_string()), Vec::<char>::new());
}
