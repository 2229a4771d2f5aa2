use regex_visualizer::fa::FA;
use regex_visualizer::state_set::StateSet;
use regex_visualizer::symbol::{is_in_alphabet, nth_alphabet_char, Symbol, ALPHABET_SIZE};
use regex_visualizer::transition::{SetTransition, Transition};

fn set(items: &[usize]) -> StateSet {
    let mut s = StateSet::new();
    for &x in items {
        s.insert(x);
    }
    s
}

fn eps(start: usize, end: usize) -> Transition {
    Transition::from(Symbol::Empty, start, end)
}

fn on(c: char, start: usize, end: usize) -> Transition {
    Transition::from(Symbol::Char(c), start, end)
}

/// 0 -eps-> 1 -eps-> 2 -eps-> 0, 2 -a-> 3, 3 -eps-> 4, 5 -b-> 0
fn sample() -> FA {
    let mut fa = FA::new();
    for s in 0..6 {
        fa.add_state(s);
    }
    fa.set_start(0);
    fa.add_acceptor(4);
    fa.add_transition(eps(0, 1));
    fa.add_transition(eps(1, 2));
    fa.add_transition(eps(2, 0));
    fa.add_transition(on('a', 2, 3));
    fa.add_transition(eps(3, 4));
    fa.add_transition(on('b', 5, 0));
    fa
}

#[test]
fn alphabet_is_visible_ascii() {
    assert_eq!(ALPHABET_SIZE, 94);
    assert_eq!(nth_alphabet_char(0), '!');
    assert_eq!(nth_alphabet_char(93), '~');
    assert_eq!(nth_alphabet_char(64), 'a');
    assert!(is_in_alphabet('a'));
    assert!(is_in_alphabet('('));
    assert!(is_in_alphabet('*'));
    assert!(!is_in_alphabet(' '));
    assert!(!is_in_alphabet('\n'));
    assert!(!is_in_alphabet('\u{7f}'));
    assert!(!is_in_alphabet('\u{e9}'));
    for i in 0..ALPHABET_SIZE {
        assert!(is_in_alphabet(nth_alphabet_char(i)));
    }
}

#[test]
fn state_set_is_canonical() {
    let a = set(&[5, 1, 3, 1]);
    let b = set(&[1, 3, 5]);
    assert!(a.equals(&b));
    assert_eq!(a.to_vec(), vec![1, 3, 5]);
    assert_eq!(a.len(), 3);
    assert!(!a.is_empty());
    assert!(StateSet::new().is_empty());
    assert!(!a.equals(&set(&[1, 3])));
    assert!(!a.equals(&set(&[1, 3, 6])));
    assert!(StateSet::new().equals(&StateSet::new()));
}

#[test]
fn state_set_insert_contains_remove() {
    let mut s = StateSet::new();
    assert!(s.insert(4));
    assert!(s.insert(2));
    assert!(!s.insert(4));
    assert!(s.insert(9));
    assert!(s.insert(0));
    assert!(s.contains(&4));
    assert!(s.contains(&0));
    assert!(s.contains(&9));
    assert!(!s.contains(&3));
    assert_eq!(s.get(0), 0);
    assert_eq!(s.get(3), 9);
    assert!(s.remove(&4));
    assert!(!s.remove(&4));
    assert!(!s.contains(&4));
    assert_eq!(s.to_vec(), vec![0, 2, 9]);
    let copy = s.clone();
    assert!(copy.equals(&s));
}

#[test]
fn state_set_extend_is_union() {
    let mut a = set(&[1, 4]);
    a.extend(&set(&[0, 4, 7]));
    assert_eq!(a.to_vec(), vec![0, 1, 4, 7]);
    a.extend(&StateSet::new());
    assert_eq!(a.to_vec(), vec![0, 1, 4, 7]);
}

#[test]
fn transition_accessors() {
    let mut t = Transition::from(Symbol::Char('x'), 1, 2);
    assert_eq!(t.sym(), Symbol::Char('x'));
    assert_eq!(t.start(), 1);
    assert_eq!(t.end(), 2);
    t.set_start(5);
    t.set_end(6);
    assert_eq!(t, Transition::from(Symbol::Char('x'), 5, 6));
}

#[test]
fn set_transition_accessors() {
    let t = SetTransition::from(Symbol::Char('x'), set(&[1, 2]), set(&[3]));
    assert_eq!(t.sym(), Symbol::Char('x'));
    assert_eq!(t.begin().to_vec(), vec![1, 2]);
    assert_eq!(t.end().to_vec(), vec![3]);
    let u = t.clone();
    assert!(u.begin().equals(t.begin()));
    assert!(u.end().equals(t.end()));
}

#[test]
fn new_automaton_is_empty() {
    let fa = FA::new();
    assert_eq!(fa.num_states(), 0);
    assert_eq!(fa.starting(), 0);
    assert!(fa.states().is_empty());
    assert!(fa.accepting().is_empty());
    assert!(fa.delta().is_empty());
    assert!(fa.transitions_of(0).is_none());
    assert!(!fa.is_accepting(0));
}

#[test]
fn adjacency_index_follows_transitions() {
    let mut fa = FA::new();
    fa.add_transition(on('a', 1, 2));
    assert_eq!(fa.transitions_of(1), Some(&vec![on('a', 1, 2)]));
    assert!(fa.transitions_of(2).is_none());
    fa.add_state(1);
    fa.add_state(2);
    assert_eq!(fa.transitions_of(1), Some(&vec![on('a', 1, 2)]));
    assert_eq!(fa.transitions_of(2), Some(&vec![]));
    fa.add_transition(on('b', 1, 1));
    fa.add_transition(on('a', 1, 2));
    fa.add_transition(eps(2, 1));
    assert_eq!(
        fa.transitions_of(1),
        Some(&vec![on('a', 1, 2), on('b', 1, 1), on('a', 1, 2)])
    );
    assert_eq!(fa.transitions_of(2), Some(&vec![eps(2, 1)]));
    assert_eq!(fa.delta().len(), 4);
    assert_eq!(fa.num_states(), 2);
}

#[test]
fn accepting_states() {
    let mut fa = sample();
    assert!(fa.is_accepting(4));
    assert!(!fa.is_accepting(0));
    fa.accepting_mut().push(0);
    assert!(fa.is_accepting(0));
    assert_eq!(fa.accepting(), &vec![4, 0]);
    assert!(fa.any_accepting(&set(&[1, 4])));
    assert!(!fa.any_accepting(&set(&[1, 2, 3])));
    assert!(!fa.any_accepting(&StateSet::new()));
}

#[test]
fn closure_follows_cycles() {
    let fa = sample();
    assert_eq!(fa.epsilon_closure(0).to_vec(), vec![0, 1, 2]);
    assert_eq!(fa.epsilon_closure(1).to_vec(), vec![0, 1, 2]);
    assert_eq!(fa.epsilon_closure(3).to_vec(), vec![3, 4]);
    assert_eq!(fa.epsilon_closure(4).to_vec(), vec![4]);
    assert_eq!(fa.epsilon_closure(5).to_vec(), vec![5]);
    assert_eq!(fa.epsilon_closure(42).to_vec(), vec![42]);
}

#[test]
fn closure_is_extensive_and_idempotent() {
    let fa = sample();
    for items in [vec![], vec![0], vec![3], vec![1, 3], vec![4, 5], vec![0, 1, 2, 3, 4, 5]] {
        let s = set(&items);
        let once = fa.epsilon_closure_set(s.clone());
        for x in &items {
            assert!(once.contains(x));
        }
        let twice = fa.epsilon_closure_set(once.clone());
        assert!(twice.equals(&once));
    }
    assert_eq!(fa.epsilon_closure_set(set(&[1, 3])).to_vec(), vec![0, 1, 2, 3, 4]);
}

#[test]
fn moves_follow_one_labelled_transition() {
    let fa = sample();
    let m = fa.delta_move(&set(&[0, 1, 2]), Symbol::Char('a')).unwrap();
    assert_eq!(m.to_vec(), vec![3]);
    assert!(fa.delta_move(&set(&[0, 1]), Symbol::Char('a')).is_none());
    assert!(fa.delta_move(&set(&[0, 1, 2]), Symbol::Char('b')).is_none());
    assert!(fa.delta_move(&StateSet::new(), Symbol::Char('a')).is_none());
    let e = fa.delta_move(&set(&[0, 3]), Symbol::Empty).unwrap();
    assert_eq!(e.to_vec(), vec![1, 4]);
}

#[test]
fn simulation_takes_the_first_fitting_transition() {
    let mut fa = FA::new();
    fa.add_state(0);
    fa.add_state(1);
    fa.add_state(2);
    fa.add_acceptor(2);
    fa.add_transition(on('a', 0, 1));
    fa.add_transition(on('a', 0, 2));
    fa.add_transition(eps(1, 2));
    assert!(!fa.dfa_accepts("a".to_string()));
    assert!(!fa.dfa_accepts("".to_string()));
    assert_eq!(fa.find_edge(0, Symbol::Char('a')), Some(on('a', 0, 1)));
    assert_eq!(fa.find_edge(1, Symbol::Empty), Some(eps(1, 2)));
    assert_eq!(fa.find_edge(1, Symbol::Char('a')), None);
}

#[test]
fn subset_construction_of_sample() {
    let fa = sample();
    let (table, moves) = fa.subset_construction();
    assert_eq!(table.len(), 2);
    assert_eq!(table[0].to_vec(), vec![0, 1, 2]);
    assert_eq!(table[1].to_vec(), vec![3, 4]);
    assert_eq!(moves.len(), 1);
    assert_eq!(moves[0].sym(), Symbol::Char('a'));
    assert!(moves[0].begin().equals(&table[0]));
    assert!(moves[0].end().equals(&table[1]));
    let d = fa.dfa_from();
    assert_eq!(d.states(), &vec![0, 1]);
    assert_eq!(d.accepting(), &vec![1]);
    assert_eq!(d.delta(), &vec![on('a', 0, 1)]);
    assert!(d.dfa_accepts("a".to_string()));
    assert!(!d.dfa_accepts("aa".to_string()));
}

#[test]
fn subset_construction_merges_equal_sets() {
    // Both branches reach the same set {3}.
    let mut fa = FA::new();
    for s in 0..4 {
        fa.add_state(s);
    }
    fa.add_acceptor(3);
    fa.add_transition(on('a', 0, 1));
    fa.add_transition(on('b', 0, 2));
    fa.add_transition(on('c', 1, 3));
    fa.add_transition(on('c', 2, 3));
    let d = fa.dfa_from();
    assert_eq!(d.num_states(), 4);
    assert_eq!(
        d.delta(),
        &vec![on('a', 0, 1), on('b', 0, 2), on('c', 1, 3), on('c', 2, 3)]
    );
}
