use regex_visualizer::fa::FA;
use regex_visualizer::regex_parser::{add_concatenation, parse_to_dfa, parse_to_nfa, to_postfix};
use regex_visualizer::state_set::StateSet;
use regex_visualizer::symbol::Symbol;
use regex_visualizer::thompsons::{parse_string_to_expr, Expr};

/// Decides by trying every way of cutting `w` whether it matches `e`.
fn matches(e: &Expr, w: &[char]) -> bool {
    match e {
        Expr::Empty => w.is_empty(),
        Expr::Just(Symbol::Empty) => w.is_empty(),
        Expr::Just(Symbol::Char(c)) => w.len() == 1 && w[0] == *c,
        Expr::Or(a, b) => matches(a, w) || matches(b, w),
        Expr::And(a, b) => (0..=w.len()).any(|j| matches(a, &w[..j]) && matches(b, &w[j..])),
        Expr::Star(a) => {
            w.is_empty() || (1..=w.len()).any(|j| matches(a, &w[..j]) && matches(e, &w[j..]))
        }
        Expr::Plus(a) => {
            matches(a, w)
                || (1..w.len()).any(|j| matches(a, &w[..j]) && matches(e, &w[j..]))
                || (matches(a, &[]) && !w.is_empty() && matches(&Expr::Star(a.clone()), w))
        }
        Expr::QMark(a) => w.is_empty() || matches(a, w),
    }
}

fn words(letters: &[char], max_len: usize) -> Vec<String> {
    let mut all = vec![String::new()];
    let mut last = vec![String::new()];
    for _ in 0..max_len {
        let mut next = Vec::new();
        for w in &last {
            for c in letters {
                let mut longer = w.clone();
                longer.push(*c);
                next.push(longer);
            }
        }
        all.extend(next.iter().cloned());
        last = next;
    }
    all
}

fn tree(pattern: &str) -> Expr {
    let postfix = to_postfix(&add_concatenation(&pattern.to_string())).unwrap();
    parse_string_to_expr(&postfix).unwrap()
}

/// Decides acceptance by following every path at once.
fn nfa_accepts(fa: &FA, w: &str) -> bool {
    let mut start = StateSet::new();
    start.insert(fa.starting());
    let mut current = fa.epsilon_closure_set(start);
    for c in w.chars() {
        current = match fa.delta_move(&current, Symbol::Char(c)) {
            Some(moved) => fa.epsilon_closure_set(moved),
            None => return false,
        };
    }
    fa.any_accepting(&current)
}

#[test]
fn automata_decide_what_the_syntax_tree_matches() {
    let inputs = words(&['a', 'b', 'c'], 5);
    for pattern in [
        "a", "ab", "a|b", "a*", "a+", "a?", "ab?", "(a|b)*abb", "(ab)*|c", "a*b*", "(a*)*",
        "(a+)+", "(a?)*b", "a(b|c)+a?", "((a|b)(a|b))*", "(a|ab)(c|bc)", "a**", "a?+",
    ] {
        let tree = tree(pattern);
        let nfa = parse_to_nfa(&pattern.to_string()).unwrap();
        let dfa = parse_to_dfa(&pattern.to_string()).unwrap();
        for input in &inputs {
            let chars: Vec<char> = input.chars().collect();
            let expected = matches(&tree, &chars);
            assert_eq!(dfa.dfa_accepts(input.clone()), expected, "{} on {:?}", pattern, input);
            assert_eq!(nfa_accepts(&nfa, input), expected, "{} on {:?}", pattern, input);
        }
    }
}

#[test]
fn copies_are_equal() {
    let tree = tree("(a|b)*c+");
    assert_eq!(tree.clone(), tree);
    let nfa = parse_to_nfa(&"(a|b)*c+".to_string()).unwrap();
    let copy = nfa.clone();
    assert_eq!(copy.states(), nfa.states());
    assert_eq!(copy.starting(), nfa.starting());
    assert_eq!(copy.accepting(), nfa.accepting());
    assert_eq!(copy.delta(), nfa.delta());
    for s in nfa.states() {
        assert_eq!(copy.transitions_of(*s), nfa.transitions_of(*s));
    }
    let mut a = StateSet::new();
    a.insert(3);
    a.insert(1);
    let mut b = StateSet::new();
    b.insert(1);
    assert_ne!(a, b);
    b.insert(3);
    assert_eq!(a, b);
    assert_eq!(a.clone(), a);
}
