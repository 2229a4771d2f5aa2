use regex_visualizer::fa::FA;
use regex_visualizer::fa_drawer::{draw_fa, sorted_copy};
use regex_visualizer::fa_reader::{from_lines, Complaint, Diagnostic, ACCEPT_SYMBOL, STATE_SYMBOL};
use regex_visualizer::regex_parser::parse_to_dfa;
use regex_visualizer::symbol::Symbol;
use regex_visualizer::text::{
    chars_of, parse_number, push_all, push_decimal, push_str, same_text, split_fields, string_of,
};
use regex_visualizer::transition::Transition;

fn chars(s: &str) -> Vec<char> {
    s.chars().collect()
}

fn number(s: &str) -> Option<usize> {
    parse_number(&chars(s))
}

fn split(s: &str) -> Vec<String> {
    split_fields(&chars(s)).iter().map(|f| f.iter().collect()).collect()
}

fn decimal(n: usize) -> String {
    let mut out = Vec::new();
    push_decimal(&mut out, n);
    out.into_iter().collect()
}

fn read(text: &str) -> (FA, Vec<Diagnostic>) {
    let lines: Vec<String> = text.lines().map(|l| l.to_string()).collect();
    from_lines(&lines)
}

fn issue(line: usize, complaint: Complaint) -> Diagnostic {
    Diagnostic { line, complaint }
}

fn on(c: char, start: usize, end: usize) -> Transition {
    Transition::from(Symbol::Char(c), start, end)
}

fn eps(start: usize, end: usize) -> Transition {
    Transition::from(Symbol::Empty, start, end)
}

#[test]
fn strings_and_characters_convert() {
    assert_eq!(chars_of("a\u{e9}b"), vec!['a', '\u{e9}', 'b']);
    assert_eq!(chars_of(""), Vec::<char>::new());
    assert_eq!(string_of(&vec!['x', '\u{3b5}', 'y']), "x\u{3b5}y");
    assert_eq!(string_of(&Vec::new()), "");
    let mut out = vec!['a'];
    push_str(&mut out, "bc");
    push_all(&mut out, &vec!['d']);
    assert_eq!(out, vec!['a', 'b', 'c', 'd']);
    assert!(same_text(&chars("->"), &chars("->")));
    assert!(!same_text(&chars("->"), &chars("-")));
    assert!(!same_text(&chars("->"), &chars("=>")));
}

#[test]
fn decimal_numerals() {
    assert_eq!(decimal(0), "0");
    assert_eq!(decimal(7), "7");
    assert_eq!(decimal(10), "10");
    assert_eq!(decimal(907), "907");
    assert_eq!(decimal(usize::MAX), usize::MAX.to_string());
}

#[test]
fn numbers_are_read_as_the_standard_library_reads_them() {
    for s in ["0", "12", "+12", "00012", "", "+", "-", "-1", "1a", "a1", "1 ", " 1", "++1", "1_0", "\u{661}"] {
        assert_eq!(number(s), s.parse::<usize>().ok(), "{:?}", s);
    }
    let max = usize::MAX.to_string();
    assert_eq!(number(&max), Some(usize::MAX));
    assert_eq!(number(&format!("{}0", max)), None);
    assert_eq!(number("99999999999999999999999999999999999999999"), None);
    let mut above = max.clone().into_bytes();
    let last = above.len() - 1;
    above[last] += 1;
    assert_eq!(number(&String::from_utf8(above).unwrap()), None);
}

#[test]
fn numerals_round_trip() {
    for n in [0, 1, 9, 10, 99, 100, 12345, usize::MAX] {
        assert_eq!(number(&decimal(n)), Some(n));
    }
}

#[test]
fn fields_are_runs_without_white_space() {
    assert_eq!(split("a -> 3"), vec!["a", "->", "3"]);
    assert_eq!(split("  a  bb\tc "), vec!["a", "bb", "c"]);
    assert_eq!(split(""), Vec::<String>::new());
    assert_eq!(split(" \t "), Vec::<String>::new());
    assert_eq!(split("a\u{a0}b\u{3000}c"), vec!["a", "b", "c"]);
    assert_eq!(split("x"), vec!["x"]);
    for s in ["a -> 3", "  a  bb\tc ", "a\u{a0}b\u{2003}c\u{85}d", "\u{200b}x y"] {
        let expected: Vec<String> = s.split_whitespace().map(|f| f.to_string()).collect();
        assert_eq!(split(s), expected, "{:?}", s);
    }
}

#[test]
fn markers() {
    assert_eq!(STATE_SYMBOL, "::");
    assert_eq!(ACCEPT_SYMBOL, "=>");
}

#[test]
fn text_of_small_automaton() {
    let fa = parse_to_dfa(&"a".to_string()).unwrap();
    assert_eq!(fa.to_text(), "0 :: 1\na -> 1\n\n1 => 0\n\n// 2 states, 1 transitions\n");
}

#[test]
fn text_of_empty_automaton() {
    assert_eq!(FA::new().to_text(), "// 0 states, 0 transitions\n");
}

#[test]
fn text_lists_states_in_order_with_their_transitions() {
    let mut fa = FA::new();
    fa.add_state(12);
    fa.add_state(3);
    fa.add_acceptor(12);
    fa.add_transition(eps(3, 12));
    fa.add_transition(on('x', 12, 3));
    fa.add_transition(on('y', 3, 3));
    fa.add_transition(on('z', 7, 3));
    assert_eq!(
        fa.to_text(),
        "3 :: 2\n  -> 12\ny -> 3\n\n7 :: 1\nz -> 3\n\n12 => 1\nx -> 3\n\n// 3 states, 4 transitions\n"
    );
}

#[test]
fn reading_a_small_automaton() {
    let (fa, issues) = read("// a comment\n\n0 :: 2\na -> 1\n-> 2\n1 => 0\n   \n2 :: 1\n  b   ->   0  \n");
    assert!(issues.is_empty());
    assert_eq!(fa.states(), &vec![0, 1, 2]);
    assert_eq!(fa.accepting(), &vec![1]);
    assert_eq!(fa.starting(), 0);
    assert_eq!(fa.delta(), &vec![on('a', 0, 1), eps(0, 2), on('b', 2, 0)]);
    assert_eq!(fa.transitions_of(0), Some(&vec![on('a', 0, 1), eps(0, 2)]));
}

#[test]
fn reading_passes_over_other_lines() {
    let (fa, issues) = read("hello\n1 2 3\n0 -- 1\n  // indented comment\n//0 :: 0\n5 => 0\n");
    assert!(issues.is_empty());
    assert_eq!(fa.states(), &vec![5]);
    assert_eq!(fa.accepting(), &vec![5]);
    assert!(fa.delta().is_empty());
}

#[test]
fn reading_reports_bad_numbers() {
    let (fa, issues) = read("x :: 0\n1 :: y\n2 :: 1\na -> z\n3 => 0\n");
    assert_eq!(
        issues,
        vec![
            issue(1, Complaint::BadNumber),
            issue(2, Complaint::BadNumber),
            issue(4, Complaint::BadNumber),
        ]
    );
    assert_eq!(fa.states(), &vec![2, 3]);
    assert_eq!(fa.accepting(), &vec![3]);
    assert!(fa.delta().is_empty());
}

#[test]
fn reading_reports_missing_arrows_and_reads_on() {
    let (fa, issues) = read("0 :: 2\na => 1\n=> 2\n");
    assert_eq!(
        issues,
        vec![issue(2, Complaint::MissingArrow), issue(3, Complaint::MissingArrow)]
    );
    assert_eq!(fa.delta(), &vec![on('a', 0, 1), eps(0, 2)]);
}

#[test]
fn reading_reports_extraneous_parts() {
    let (fa, issues) = read("0 :: 3\na -> 1 !\n\n1\n1 :: 0\n");
    assert_eq!(
        issues,
        vec![
            issue(2, Complaint::ExtraneousParts),
            issue(3, Complaint::ExtraneousParts),
            issue(4, Complaint::ExtraneousParts),
        ]
    );
    assert_eq!(fa.states(), &vec![0, 1]);
    assert!(fa.delta().is_empty());
}

#[test]
fn reading_takes_every_line_of_a_state_as_a_transition() {
    let (fa, issues) = read("0 :: 2\n// note\n1 :: 0\n");
    assert_eq!(
        issues,
        vec![
            issue(2, Complaint::MissingArrow),
            issue(2, Complaint::BadNumber),
            issue(3, Complaint::MissingArrow),
        ]
    );
    assert_eq!(fa.states(), &vec![0]);
    assert_eq!(fa.delta(), &vec![on('1', 0, 0)]);
}

#[test]
fn reading_reports_missing_transitions() {
    let (fa, issues) = read("0 :: 3\na -> 1\n");
    assert_eq!(issues, vec![issue(2, Complaint::MissingTransition)]);
    assert_eq!(fa.delta(), &vec![on('a', 0, 1)]);
    let (_, issues) = from_lines(&Vec::new());
    assert!(issues.is_empty());
}

#[test]
fn reading_takes_the_first_character_as_symbol() {
    let (fa, issues) = read("0 :: 2\nabc -> 1\n\u{3b5} -> 2\n");
    assert!(issues.is_empty());
    assert_eq!(fa.delta(), &vec![on('a', 0, 1), on('\u{3b5}', 0, 2)]);
}

#[test]
fn text_round_trip_preserves_behaviour() {
    let inputs = ["", "a", "b", "ab", "ba", "aa", "abb", "aabb", "abab", "c", "abc", "aaaa", "bbbb"];
    for pattern in ["a", "ab", "a|b", "a*", "a+", "ab?", "(a|b)*abb", "(ab)*|c", "a#b"] {
        let fa = parse_to_dfa(&pattern.to_string()).unwrap();
        let (back, issues) = read(&fa.to_text());
        assert!(issues.is_empty(), "{}", pattern);
        assert_eq!(back.states(), fa.states());
        assert_eq!(back.accepting(), fa.accepting());
        assert_eq!(back.delta(), fa.delta());
        for input in inputs {
            assert_eq!(
                back.dfa_accepts(input.to_string()),
                fa.dfa_accepts(input.to_string()),
                "{} on {:?}",
                pattern,
                input
            );
        }
    }
}

#[test]
fn sorting_keeps_repetitions() {
    assert_eq!(sorted_copy(&vec![3, 1, 2, 1, 0, 3]), vec![0, 1, 1, 2, 3, 3]);
    assert_eq!(sorted_copy(&Vec::new()), Vec::<usize>::new());
    assert_eq!(sorted_copy(&vec![5]), vec![5]);
}

#[test]
fn drawing_a_small_automaton() {
    let fa = parse_to_dfa(&"a".to_string()).unwrap();
    assert_eq!(
        draw_fa(fa),
        "digraph {\nrankdir=LR\nnode [shape = doublecircle]; 1;\nnode [shape = circle];\n0 -> 1 [label=\"'a'\"]\n}\n"
    );
}

#[test]
fn drawing_orders_accepting_states_and_marks_empty_transitions() {
    let mut fa = FA::new();
    fa.add_acceptor(12);
    fa.add_acceptor(3);
    fa.add_acceptor(12);
    fa.add_transition(eps(3, 12));
    fa.add_transition(on('"', 12, 3));
    assert_eq!(
        draw_fa(fa),
        "digraph {\nrankdir=LR\nnode [shape = doublecircle]; 3 12 12;\nnode [shape = circle];\n3 -> 12 [label=\"'\u{3b5}'\"]\n12 -> 3 [label=\"'\"'\"]\n}\n"
    );
}

#[test]
fn drawing_an_empty_automaton() {
    assert_eq!(
        draw_fa(FA::new()),
        "digraph {\nrankdir=LR\nnode [shape = doublecircle];;\nnode [shape = circle];\n}\n"
    );
}
