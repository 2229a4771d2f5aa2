use regex_visualizer::fa::FA;
use regex_visualizer::regex_parser::{add_concatenation, parse_to_dfa, parse_to_nfa, to_postfix};
use regex_visualizer::symbol::Symbol;
use regex_visualizer::transition::Transition;

fn dfa(pattern: &str) -> FA {
    parse_to_dfa(&pattern.to_string()).expect("pattern compiles")
}

fn accepts(fa: &FA, input: &str) -> bool {
    fa.dfa_accepts(input.to_string())
}

fn is_deterministic(fa: &FA) -> bool {
    let delta = fa.delta();
    for (i, a) in delta.iter().enumerate() {
        if a.sym() == Symbol::Empty {
            return false;
        }
        for b in delta.iter().skip(i + 1) {
            if a.start() == b.start() && a.sym() == b.sym() {
                return false;
            }
        }
    }
    true
}

#[test]
fn concatenation_end_to_end() {
    let pattern = "ab".to_string();
    let with_concat = add_concatenation(&pattern);
    assert_eq!(with_concat, "a.b");
    assert_eq!(to_postfix(&with_concat), Some("ab.".to_string()));
    let fa = dfa("ab");
    assert!(accepts(&fa, "ab"));
    assert!(!accepts(&fa, ""));
    assert!(!accepts(&fa, "a"));
    assert!(!accepts(&fa, "aba"));
}

#[test]
fn alternation_end_to_end() {
    let fa = dfa("a|b");
    assert!(accepts(&fa, "a"));
    assert!(accepts(&fa, "b"));
    assert!(!accepts(&fa, ""));
    assert!(!accepts(&fa, "ab"));
}

#[test]
fn star_end_to_end() {
    let fa = dfa("a*");
    assert!(accepts(&fa, ""));
    assert!(accepts(&fa, "a"));
    assert!(accepts(&fa, "aaaa"));
    assert!(!accepts(&fa, "b"));
    assert!(!accepts(&fa, "ab"));
}

#[test]
fn plus_end_to_end() {
    let fa = dfa("a+");
    assert!(!accepts(&fa, ""));
    assert!(accepts(&fa, "a"));
    assert!(accepts(&fa, "aa"));
}

#[test]
fn optional_end_to_end() {
    let fa = dfa("ab?");
    assert!(accepts(&fa, "a"));
    assert!(accepts(&fa, "ab"));
    assert!(!accepts(&fa, "abb"));
}

#[test]
fn grouping_and_nesting() {
    let fa = dfa("(a|b)*c");
    assert!(accepts(&fa, "c"));
    assert!(accepts(&fa, "abbac"));
    assert!(!accepts(&fa, "abba"));
    assert!(!accepts(&fa, "cc"));
    let fa = dfa("(ab)+|c?");
    assert!(accepts(&fa, ""));
    assert!(accepts(&fa, "c"));
    assert!(accepts(&fa, "abab"));
    assert!(!accepts(&fa, "aba"));
    assert!(!accepts(&fa, "abc"));
}

#[test]
fn repetition_followed_by_operand() {
    let fa = dfa("a*b");
    assert!(accepts(&fa, "b"));
    assert!(accepts(&fa, "aab"));
    assert!(!accepts(&fa, "a"));
    let fa = dfa("a+b?c");
    assert!(accepts(&fa, "ac"));
    assert!(accepts(&fa, "aabc"));
    assert!(!accepts(&fa, "bc"));
}

#[test]
fn nested_repetition_terminates() {
    let fa = dfa("(a*)*");
    assert!(accepts(&fa, ""));
    assert!(accepts(&fa, "aaa"));
    assert!(!accepts(&fa, "b"));
    let fa = dfa("(a?)+");
    assert!(accepts(&fa, ""));
    assert!(accepts(&fa, "aa"));
}

#[test]
fn determinization_is_deterministic() {
    for pattern in ["ab", "a|b", "a*", "(a|b)*abb", "(ab|a)(ba|b)*", "a?b+c*"] {
        let fa = dfa(pattern);
        assert!(is_deterministic(&fa), "{}", pattern);
    }
}

#[test]
fn determinization_respects_state_bound() {
    for pattern in ["a", "ab", "a|b", "(a|b)*abb", "(a|b)*a(a|b)(a|b)"] {
        let nfa = parse_to_nfa(&pattern.to_string()).unwrap();
        let d = nfa.dfa_from();
        let n = nfa.num_states();
        assert!(n < 64);
        assert!((d.num_states() as u128) <= (1u128 << n), "{}", pattern);
    }
}

#[test]
fn determinization_numbers_states_from_zero() {
    let fa = dfa("(a|b)*abb");
    assert_eq!(fa.starting(), 0);
    let expected: Vec<usize> = (0..fa.num_states()).collect();
    assert_eq!(fa.states(), &expected);
    assert_eq!(fa.num_states(), 5);
    for t in fa.delta() {
        assert!(t.start() < fa.num_states());
        assert!(t.end() < fa.num_states());
    }
}

#[test]
fn determinization_of_single_symbol_is_exact() {
    let fa = dfa("a");
    assert_eq!(fa.states(), &vec![0, 1]);
    assert_eq!(fa.starting(), 0);
    assert_eq!(fa.accepting(), &vec![1]);
    assert_eq!(fa.delta(), &vec![Transition::from(Symbol::Char('a'), 0, 1)]);
}

#[test]
fn determinization_orders_transitions_by_state_then_symbol() {
    let fa = dfa("b|a");
    assert_eq!(
        fa.delta(),
        &vec![
            Transition::from(Symbol::Char('a'), 0, 1),
            Transition::from(Symbol::Char('b'), 0, 2),
        ]
    );
    assert_eq!(fa.accepting(), &vec![1, 2]);
}

#[test]
fn determinization_leaves_the_input_untouched() {
    let nfa = parse_to_nfa(&"a|b".to_string()).unwrap();
    let states = nfa.states().clone();
    let delta = nfa.delta().clone();
    let _ = nfa.dfa_from();
    assert_eq!(nfa.states(), &states);
    assert_eq!(nfa.delta(), &delta);
}

#[test]
fn accepting_start_state_is_marked() {
    let fa = dfa("(ab)*");
    assert!(fa.is_accepting(0));
    assert!(accepts(&fa, ""));
    assert!(!accepts(&fa, "a"));
    assert!(accepts(&fa, "ab"));
    assert!(!accepts(&fa, "aba"));
}

#[test]
fn malformed_patterns_are_rejected() {
    for pattern in ["", "(", ")", "(a", "a)", "a|", "|a", "*", "+a", "a||b", "()", "(a|b", "a(b))"] {
        assert!(parse_to_nfa(&pattern.to_string()).is_none(), "{:?}", pattern);
        assert!(parse_to_dfa(&pattern.to_string()).is_none(), "{:?}", pattern);
    }
}

#[test]
fn characters_outside_the_alphabet_are_skipped() {
    assert_eq!(to_postfix(&"a\u{e9}b".to_string()), Some("ab".to_string()));
    assert_eq!(to_postfix(&"a b".to_string()), Some("ab".to_string()));
    let fa = dfa("a\u{e9}");
    assert!(accepts(&fa, "a"));
}

#[test]
fn simulation_rejects_characters_without_transition() {
    let fa = dfa("a");
    assert!(!accepts(&fa, "\u{e9}"));
    assert!(!accepts(&fa, "a\u{e9}"));
}
