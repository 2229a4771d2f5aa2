use regex_visualizer::state_set::StateSet;
use regex_visualizer::symbol::Symbol;
use regex_visualizer::thompsons::{
    count_ids, fapiece_to_fa, is_literal_char, parse, parse_string_to_expr,
    parse_to_finite_automata, rename, Expr, FAPiece, IdGen,
};
use regex_visualizer::transition::Transition;

fn tree(postfix: &str) -> Option<Expr> {
    parse_string_to_expr(&postfix.to_string())
}

fn just(c: char) -> Box<Expr> {
    Box::new(Expr::Just(Symbol::Char(c)))
}

fn eps(start: usize, end: usize) -> Transition {
    Transition::from(Symbol::Empty, start, end)
}

fn piece(postfix: &str) -> FAPiece {
    let mut ids = IdGen::new();
    parse(tree(postfix).unwrap(), &mut ids)
}

fn members(set: &StateSet) -> Vec<usize> {
    set.to_vec()
}

#[test]
fn syntax_tree_of_leaf() {
    assert_eq!(tree("a"), Some(Expr::Just(Symbol::Char('a'))));
}

#[test]
fn syntax_tree_of_binary_operators() {
    assert_eq!(tree("ab."), Some(Expr::And(just('a'), just('b'))));
    assert_eq!(tree("ab|"), Some(Expr::Or(just('b'), just('a'))));
    assert_eq!(
        tree("ab.c|"),
        Some(Expr::Or(just('c'), Box::new(Expr::And(just('a'), just('b')))))
    );
}

#[test]
fn syntax_tree_of_unary_operators() {
    assert_eq!(tree("a*"), Some(Expr::Star(just('a'))));
    assert_eq!(tree("a+"), Some(Expr::Plus(just('a'))));
    assert_eq!(tree("a?"), Some(Expr::QMark(just('a'))));
    assert_eq!(tree("a*+"), Some(Expr::Plus(Box::new(Expr::Star(just('a'))))));
}

#[test]
fn syntax_tree_fails_without_operands() {
    assert_eq!(tree("*"), None);
    assert_eq!(tree("+"), None);
    assert_eq!(tree("?"), None);
    assert_eq!(tree("a."), None);
    assert_eq!(tree("a|"), None);
    assert_eq!(tree("."), None);
}

#[test]
fn syntax_tree_fails_on_leftover_operands() {
    assert_eq!(tree(""), None);
    assert_eq!(tree("ab"), None);
    assert_eq!(tree("ab.c"), None);
}

#[test]
fn syntax_tree_fails_on_foreign_tokens() {
    assert_eq!(tree("a("), None);
    assert_eq!(tree(")"), None);
    assert_eq!(tree("a b."), None);
    assert_eq!(tree("\u{e9}"), None);
}

#[test]
fn literal_characters() {
    assert!(is_literal_char('a'));
    assert!(is_literal_char('Z'));
    assert!(is_literal_char('0'));
    assert!(is_literal_char('!'));
    assert!(is_literal_char('~'));
    assert!(!is_literal_char(' '));
    assert!(!is_literal_char('('));
    assert!(!is_literal_char(')'));
    assert!(!is_literal_char('*'));
    assert!(!is_literal_char('+'));
    assert!(!is_literal_char('?'));
    assert!(!is_literal_char('.'));
    assert!(!is_literal_char('|'));
    assert!(!is_literal_char('\u{7f}'));
    assert!(!is_literal_char('\u{e9}'));
}

#[test]
fn identifiers_are_handed_out_once() {
    let mut ids = IdGen::new();
    assert_eq!(ids.fresh(), 0);
    assert_eq!(FAPiece::produce_id(&mut ids), 1);
    assert_eq!(ids.fresh(), 2);
    assert!(ids.has_room(10));
    assert!(!ids.has_room(usize::MAX));
    assert!(ids.has_room(usize::MAX - 3));
}

#[test]
fn identifier_count_of_trees() {
    assert_eq!(count_ids(&tree("a").unwrap()), Some(2));
    assert_eq!(count_ids(&tree("ab.").unwrap()), Some(4));
    assert_eq!(count_ids(&tree("ab|").unwrap()), Some(6));
    assert_eq!(count_ids(&tree("a*").unwrap()), Some(4));
    assert_eq!(count_ids(&tree("ab.c|*").unwrap()), Some(10));
    assert_eq!(count_ids(&Expr::Empty), Some(2));
}

#[test]
fn fragment_of_leaf() {
    let p = piece("a");
    assert_eq!(members(&p.states()), vec![0, 1]);
    assert_eq!(p.start(), 0);
    assert_eq!(p.end(), 1);
    assert_eq!(p.delta(), &vec![Transition::from(Symbol::Char('a'), 0, 1)]);
    assert_eq!(p.num_states(), 2);
}

#[test]
fn fragment_of_empty_word() {
    let mut ids = IdGen::new();
    let p = parse(Expr::Empty, &mut ids);
    assert_eq!(members(&p.states()), vec![0, 1]);
    assert_eq!(p.delta(), &vec![eps(0, 1)]);
}

#[test]
fn fragment_of_alternation() {
    let p = piece("ab|");
    // The operands are built in the order of the tree: b first, then a.
    assert_eq!(members(&p.states()), vec![0, 1, 2, 3, 4, 5]);
    assert_eq!(p.start(), 4);
    assert_eq!(p.end(), 5);
    assert_eq!(
        p.delta(),
        &vec![
            Transition::from(Symbol::Char('b'), 0, 1),
            Transition::from(Symbol::Char('a'), 2, 3),
            eps(4, 0),
            eps(4, 2),
            eps(1, 5),
            eps(3, 5),
        ]
    );
}

#[test]
fn fragment_of_concatenation_fuses_states() {
    let p = piece("ab.");
    assert_eq!(members(&p.states()), vec![0, 1, 3]);
    assert_eq!(p.start(), 0);
    assert_eq!(p.end(), 3);
    assert_eq!(
        p.delta(),
        &vec![
            Transition::from(Symbol::Char('a'), 0, 1),
            Transition::from(Symbol::Char('b'), 1, 3),
        ]
    );
}

#[test]
fn concatenation_state_count() {
    for (a, b) in [("a", "b"), ("ab|", "c*"), ("a*", "bc."), ("ab.c.", "de|")] {
        let mut ids = IdGen::new();
        let first = parse(tree(a).unwrap(), &mut ids);
        let second = parse(tree(b).unwrap(), &mut ids);
        let both = piece(&format!("{}{}.", a, b));
        assert_eq!(both.num_states(), first.num_states() + second.num_states() - 1);
        let gone = second.start();
        assert!(!both.states().contains(&gone));
        for t in both.delta() {
            assert_ne!(t.start(), gone);
            assert_ne!(t.end(), gone);
        }
    }
}

#[test]
fn fragment_of_star() {
    let p = piece("a*");
    assert_eq!(members(&p.states()), vec![0, 1, 2, 3]);
    assert_eq!(p.start(), 2);
    assert_eq!(p.end(), 3);
    assert_eq!(
        p.delta(),
        &vec![
            Transition::from(Symbol::Char('a'), 0, 1),
            eps(2, 0),
            eps(1, 3),
            eps(2, 3),
            eps(1, 0),
        ]
    );
}

#[test]
fn fragment_of_plus() {
    let p = piece("a+");
    assert_eq!(
        p.delta(),
        &vec![Transition::from(Symbol::Char('a'), 0, 1), eps(2, 0), eps(1, 3), eps(1, 0)]
    );
}

#[test]
fn fragment_of_option() {
    let p = piece("a?");
    assert_eq!(
        p.delta(),
        &vec![Transition::from(Symbol::Char('a'), 0, 1), eps(2, 0), eps(1, 3), eps(2, 3)]
    );
}

#[test]
fn renaming_replaces_both_endpoints() {
    let delta = vec![
        Transition::from(Symbol::Char('a'), 1, 2),
        Transition::from(Symbol::Empty, 2, 1),
        Transition::from(Symbol::Char('b'), 1, 1),
        Transition::from(Symbol::Char('c'), 3, 4),
    ];
    assert_eq!(
        rename(&delta, 1, 9),
        vec![
            Transition::from(Symbol::Char('a'), 9, 2),
            Transition::from(Symbol::Empty, 2, 9),
            Transition::from(Symbol::Char('b'), 9, 9),
            Transition::from(Symbol::Char('c'), 3, 4),
        ]
    );
}

#[test]
fn fragment_builders() {
    let mut p = FAPiece::new();
    assert_eq!(p.num_states(), 0);
    assert_eq!(p.start(), 0);
    assert_eq!(p.end(), 0);
    p.add_state(7);
    p.add_state(3);
    p.add_state(7);
    assert_eq!(members(&p.states()), vec![3, 7]);
    p.set_start(3);
    p.set_end(7);
    assert_eq!((p.start(), p.end()), (3, 7));
    p.add_transition(eps(3, 7));
    p.delta_mut().push(eps(7, 3));
    assert_eq!(p.delta(), &vec![eps(3, 7), eps(7, 3)]);
    p.remove_state(3);
    assert_eq!(members(&p.states()), vec![7]);
    let mut more = StateSet::new();
    more.insert(1);
    more.insert(9);
    p.add_states(&more);
    assert_eq!(members(&p.states()), vec![1, 7, 9]);
    p.add_transitions(&vec![eps(1, 9), eps(9, 1)]);
    assert_eq!(p.delta().len(), 4);
    let q = FAPiece::new_with_start_end(5, 2);
    assert_eq!(members(&q.states()), vec![2, 5]);
    assert_eq!((q.start(), q.end()), (5, 2));
    assert!(q.delta().is_empty());
    let mut ids = IdGen::new();
    let s = FAPiece::just_sym(Symbol::Char('x'), &mut ids);
    assert_eq!(s.delta(), &vec![Transition::from(Symbol::Char('x'), 0, 1)]);
    let t = FAPiece::just_sym(Symbol::Char('y'), &mut ids);
    assert_eq!(t.delta(), &vec![Transition::from(Symbol::Char('y'), 2, 3)]);
}

#[test]
fn automaton_of_fragment() {
    let fa = fapiece_to_fa(piece("ab."));
    assert_eq!(fa.states(), &vec![0, 1, 3]);
    assert_eq!(fa.starting(), 0);
    assert_eq!(fa.accepting(), &vec![3]);
    assert_eq!(
        fa.delta(),
        &vec![
            Transition::from(Symbol::Char('a'), 0, 1),
            Transition::from(Symbol::Char('b'), 1, 3),
        ]
    );
}

#[test]
fn automaton_of_postfix_pattern() {
    let fa = parse_to_finite_automata(&"ab|".to_string()).unwrap();
    assert_eq!(fa.num_states(), 6);
    assert_eq!(fa.starting(), 4);
    assert_eq!(fa.accepting(), &vec![5]);
    assert!(parse_to_finite_automata(&"a|".to_string()).is_none());
    assert!(parse_to_finite_automata(&"".to_string()).is_none());
    assert!(parse_to_finite_automata(&"(a)".to_string()).is_none());
}

#[test]
fn fragment_copies_are_equal() {
    let p = piece("ab|*");
    let q = p.clone();
    assert_eq!(q.states(), p.states());
    assert_eq!(q.delta(), p.delta());
    assert_eq!((q.start(), q.end()), (p.start(), p.end()));
}
