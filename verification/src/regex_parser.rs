//! From a pattern in infix notation to an automaton.
//!
//! A pattern is first given explicit concatenation operators, then
//! rewritten to postfix form by the shunting-yard algorithm, and finally
//! handed to Thompson's construction.

use crate::automaton::Automaton;
use crate::construction_language::{lemma_thompson_labels, lemma_thompson_language};
use crate::fa::FA;
use crate::fragment_laws::lemma_fragment_automaton_valid;
use crate::state_set::State;
use crate::symbol::{in_alphabet, is_in_alphabet};
use crate::text::{chars_of, string_of};
use crate::thompsons::{
    is_literal, is_literal_char, is_operator, parse_to_finite_automata, syntax_tree,
    thompson_automaton, Expr, ALTERNATE, CONCAT, OPTIONAL, PLUS, STAR,
};
use vstd::arithmetic::power2::pow2;
use vstd::prelude::*;

verus! {

/// A subexpression can end with `c`: any character of the alphabet but an
/// opening parenthesis and the alternation operator.
pub open spec fn ends_operand(c: char) -> bool {
    in_alphabet(c) && c != '(' && c != ALTERNATE
}

/// A subexpression can begin with `c`: any character of the alphabet but a
/// closing parenthesis and the operators that follow their operand.
pub open spec fn begins_operand(c: char) -> bool {
    in_alphabet(c) && c != ')' && c != ALTERNATE && c != STAR && c != PLUS && c != OPTIONAL
}

/// The first `k` characters of `s`, with a concatenation operator after
/// each character that ends a subexpression where the next character begins
/// one.
pub open spec fn concatenated_prefix(s: Seq<char>, k: int) -> Seq<char>
    decreases k,
{
    if k <= 0 {
        Seq::empty()
    } else {
        let before = concatenated_prefix(s, k - 1).push(s[k - 1]);
        if k < s.len() && ends_operand(s[k - 1]) && begins_operand(s[k]) {
            before.push(CONCAT)
        } else {
            before
        }
    }
}

/// The pattern `s` with explicit concatenation operators.
pub open spec fn with_concatenation(s: Seq<char>) -> Seq<char> {
    concatenated_prefix(s, s.len() as int)
}

/// Decides whether a subexpression can end with `c`.
fn can_end_operand(c: char) -> (b: bool)
    ensures
        b == ends_operand(c),
{
    is_in_alphabet(c) && c != '(' && c != ALTERNATE
}

/// Decides whether a subexpression can begin with `c`.
fn can_begin_operand(c: char) -> (b: bool)
    ensures
        b == begins_operand(c),
{
    is_in_alphabet(c) && c != ')' && c != ALTERNATE && c != STAR && c != PLUS && c != OPTIONAL
}

/// Inserts the concatenation operator between every two adjacent characters
/// of which the first can end a subexpression and the second can begin one.
pub fn add_concatenation(regex: &String) -> (output: String)
    ensures
        output@ == with_concatenation(regex@),
{
    let chars = chars_of(regex.as_str());
    let mut output: Vec<char> = Vec::new();
    let len = chars.len();
    let mut i: usize = 0;
    while i < len
        invariant
            chars@ == regex@,
            len == chars@.len(),
            i <= len,
            output@ == concatenated_prefix(chars@, i as int),
        decreases len - i,
    {
        let c = chars[i];
        output.push(c);
        if i + 1 < len && can_end_operand(c) && can_begin_operand(chars[i + 1]) {
            output.push(CONCAT);
        }
        i += 1;
    }
    string_of(&output)
}

/// How tightly an operator binds: repetition and option tightest,
/// concatenation next, alternation least.
pub open spec fn precedence(c: char) -> int {
    if c == STAR || c == PLUS || c == OPTIONAL {
        10
    } else if c == CONCAT {
        5
    } else {
        0
    }
}

/// Computes how tightly the operator `c` binds.
pub fn precedence_of(c: char) -> (p: u8)
    ensures
        p == precedence(c),
{
    if c == STAR || c == PLUS || c == OPTIONAL {
        10
    } else if c == CONCAT {
        5
    } else {
        0
    }
}

/// The state of the shunting-yard algorithm: the output so far and the
/// stack of pending operators and opening parentheses, top last.
pub struct Shunt {
    pub out: Seq<char>,
    pub ops: Seq<char>,
}

/// Moves operators from the stack to the output for as long as the top is
/// an operator that binds at least as tightly as `p`.
pub open spec fn pop_higher(st: Shunt, p: int) -> Shunt
    decreases st.ops.len(),
{
    if st.ops.len() > 0 && st.ops.last() != '(' && precedence(st.ops.last()) >= p {
        pop_higher(Shunt { out: st.out.push(st.ops.last()), ops: st.ops.drop_last() }, p)
    } else {
        st
    }
}

/// Moves operators from the stack to the output down to the nearest
/// opening parenthesis, which is dropped; `None` when there is none.
pub open spec fn pop_group(st: Shunt) -> Option<Shunt>
    decreases st.ops.len(),
{
    if st.ops.len() == 0 {
        None
    } else if st.ops.last() == '(' {
        Some(Shunt { out: st.out, ops: st.ops.drop_last() })
    } else {
        pop_group(Shunt { out: st.out.push(st.ops.last()), ops: st.ops.drop_last() })
    }
}

/// One step of the algorithm.  An opening parenthesis is pushed; a closing
/// one unwinds its group; an operator first lets tighter operators pass,
/// then is pushed; a literal goes straight to the output; a character
/// outside the alphabet is skipped.
pub open spec fn shunt_token(st: Shunt, c: char) -> Option<Shunt> {
    if c == '(' {
        Some(Shunt { out: st.out, ops: st.ops.push(c) })
    } else if c == ')' {
        pop_group(st)
    } else if is_operator(c) {
        let popped = pop_higher(st, precedence(c));
        Some(Shunt { out: popped.out, ops: popped.ops.push(c) })
    } else if is_literal(c) {
        Some(Shunt { out: st.out.push(c), ops: st.ops })
    } else {
        Some(st)
    }
}

/// The state of the algorithm after all of `s`; `None` when a closing
/// parenthesis had no partner.
pub open spec fn shunt(s: Seq<char>) -> Option<Shunt>
    decreases s.len(),
{
    if s.len() == 0 {
        Some(Shunt { out: Seq::empty(), ops: Seq::empty() })
    } else {
        match shunt(s.drop_last()) {
            None => None,
            Some(st) => shunt_token(st, s.last()),
        }
    }
}

/// The postfix form of the pattern `s`: the output of the algorithm
/// followed by the pending operators, top first.  `None` when the
/// parentheses of `s` do not match.
pub open spec fn postfix_of(s: Seq<char>) -> Option<Seq<char>> {
    match shunt(s) {
        None => None,
        Some(st) => if st.ops.contains('(') {
            None
        } else {
            Some(st.out + st.ops.reverse())
        },
    }
}

/// Every character of `s` is an operator or a literal.
pub open spec fn tokens_only(s: Seq<char>) -> bool {
    forall|i: int| 0 <= i < s.len() ==> is_operator(#[trigger] s[i]) || is_literal(s[i])
}

/// Every character of `s` is an operator or an opening parenthesis.
pub open spec fn pending_only(s: Seq<char>) -> bool {
    forall|i: int| 0 <= i < s.len() ==> is_operator(#[trigger] s[i]) || s[i] == '('
}

/// The output holds tokens only, and the stack operators and opening
/// parentheses only.
pub open spec fn tidy(st: Shunt) -> bool {
    tokens_only(st.out) && pending_only(st.ops)
}

/// Letting tighter operators pass keeps the state tidy.
pub proof fn lemma_pop_higher_tidy(st: Shunt, p: int)
    requires
        tidy(st),
    ensures
        tidy(pop_higher(st, p)),
    decreases st.ops.len(),
{
    if st.ops.len() > 0 && st.ops.last() != '(' && precedence(st.ops.last()) >= p {
        let next = Shunt { out: st.out.push(st.ops.last()), ops: st.ops.drop_last() };
        assert(is_operator(st.ops[st.ops.len() - 1]) || st.ops[st.ops.len() - 1] == '(');
        assert forall|i: int| 0 <= i < next.out.len() implies is_operator(#[trigger] next.out[i])
            || is_literal(next.out[i]) by {
            if i < st.out.len() {
                assert(next.out[i] == st.out[i]);
            }
        }
        assert forall|i: int| 0 <= i < next.ops.len() implies is_operator(#[trigger] next.ops[i])
            || next.ops[i] == '(' by {
            assert(next.ops[i] == st.ops[i]);
        }
        lemma_pop_higher_tidy(next, p);
    }
}

/// Unwinding a group keeps the state tidy.
pub proof fn lemma_pop_group_tidy(st: Shunt)
    requires
        tidy(st),
    ensures
        pop_group(st) matches Some(after) ==> tidy(after),
    decreases st.ops.len(),
{
    if st.ops.len() > 0 {
        let rest = st.ops.drop_last();
        assert forall|i: int| 0 <= i < rest.len() implies is_operator(#[trigger] rest[i])
            || rest[i] == '(' by {
            assert(rest[i] == st.ops[i]);
        }
        if st.ops.last() != '(' {
            let next = Shunt { out: st.out.push(st.ops.last()), ops: rest };
            assert(is_operator(st.ops[st.ops.len() - 1]) || st.ops[st.ops.len() - 1] == '(');
            assert forall|i: int| 0 <= i < next.out.len() implies is_operator(
                #[trigger] next.out[i],
            ) || is_literal(next.out[i]) by {
                if i < st.out.len() {
                    assert(next.out[i] == st.out[i]);
                }
            }
            lemma_pop_group_tidy(next);
        }
    }
}

/// The algorithm keeps its state tidy.
pub proof fn lemma_shunt_tidy(s: Seq<char>)
    ensures
        shunt(s) matches Some(st) ==> tidy(st),
    decreases s.len(),
{
    if s.len() > 0 {
        lemma_shunt_tidy(s.drop_last());
        match shunt(s.drop_last()) {
            None => {},
            Some(st) => {
                let c = s.last();
                if c == '(' {
                    let next = st.ops.push(c);
                    assert forall|i: int| 0 <= i < next.len() implies is_operator(
                        #[trigger] next[i],
                    ) || next[i] == '(' by {
                        if i < st.ops.len() {
                            assert(next[i] == st.ops[i]);
                        }
                    }
                } else if c == ')' {
                    lemma_pop_group_tidy(st);
                } else if is_operator(c) {
                    lemma_pop_higher_tidy(st, precedence(c));
                    let popped = pop_higher(st, precedence(c));
                    let next = popped.ops.push(c);
                    assert forall|i: int| 0 <= i < next.len() implies is_operator(
                        #[trigger] next[i],
                    ) || next[i] == '(' by {
                        if i < popped.ops.len() {
                            assert(next[i] == popped.ops[i]);
                        }
                    }
                } else if is_literal(c) {
                    let next = st.out.push(c);
                    assert forall|i: int| 0 <= i < next.len() implies is_operator(
                        #[trigger] next[i],
                    ) || is_literal(next[i]) by {
                        if i < st.out.len() {
                            assert(next[i] == st.out[i]);
                        }
                    }
                }
            },
        }
    }
}

/// The postfix form of a pattern holds operators and literals only: it is
/// free of parentheses and of characters outside the alphabet.
pub proof fn lemma_postfix_tokens(s: Seq<char>)
    ensures
        postfix_of(s) matches Some(postfix) ==> tokens_only(postfix),
{
    lemma_shunt_tidy(s);
    match postfix_of(s) {
        None => {},
        Some(postfix) => {
            let st = shunt(s)->0;
            let tail = st.ops.reverse();
            assert forall|i: int| 0 <= i < postfix.len() implies is_operator(
                #[trigger] postfix[i],
            ) || is_literal(postfix[i]) by {
                if i < st.out.len() {
                    assert(postfix[i] == st.out[i]);
                } else {
                    let k = i - st.out.len();
                    assert(postfix[i] == tail[k]);
                    assert(tail[k] == st.ops[st.ops.len() - 1 - k]);
                    assert(st.ops.contains(st.ops[st.ops.len() - 1 - k]));
                }
            }
        },
    }
}

/// Once the algorithm has failed on a prefix, it has failed on the whole.
pub proof fn lemma_shunt_stuck(s: Seq<char>, k: int)
    requires
        0 <= k <= s.len(),
        shunt(s.take(k)) is None,
    ensures
        shunt(s) is None,
    decreases s.len() - k,
{
    if k < s.len() {
        assert(s.take(k + 1).drop_last() =~= s.take(k));
        lemma_shunt_stuck(s, k + 1);
    } else {
        assert(s.take(k) =~= s);
    }
}

/// Rewrites a pattern with explicit concatenation operators to postfix
/// form.
///
/// Characters outside the alphabet are skipped.  Fails when a parenthesis
/// has no partner.  The postfix form holds operators and literals only.
pub fn to_postfix(regex: &String) -> (r: Option<String>)
    ensures
        match r {
            Some(postfix) => postfix_of(regex@) == Some(postfix@) && tokens_only(postfix@),
            None => postfix_of(regex@) is None,
        },
{
    proof {
        lemma_postfix_tokens(regex@);
    }
    let chars = chars_of(regex.as_str());
    let mut output: Vec<char> = Vec::new();
    let mut opstack: Vec<char> = Vec::new();
    let mut i: usize = 0;
    proof {
        assert(chars@.take(0) =~= Seq::<char>::empty());
    }
    while i < chars.len()
        invariant
            chars@ == regex@,
            i <= chars@.len(),
            shunt(chars@.take(i as int)) == Some(Shunt { out: output@, ops: opstack@ }),
        decreases chars@.len() - i,
    {
        let c = chars[i];
        let ghost before = Shunt { out: output@, ops: opstack@ };
        proof {
            assert(chars@.take(i + 1).drop_last() =~= chars@.take(i as int));
            assert(chars@.take(i + 1).last() == c);
        }
        if c == '(' {
            opstack.push(c);
        } else if c == ')' {
            let mut found = false;
            while !found && opstack.len() > 0
                invariant
                    !found ==> pop_group(before) == pop_group(
                        Shunt { out: output@, ops: opstack@ },
                    ),
                    found ==> pop_group(before) == Some(Shunt { out: output@, ops: opstack@ }),
                decreases opstack@.len() + (if found { 0int } else { 1int }),
            {
                let op = opstack.pop().unwrap();
                if op == '(' {
                    found = true;
                } else {
                    output.push(op);
                }
            }
            if !found {
                proof {
                    lemma_shunt_stuck(chars@, i + 1);
                }
                return None;
            }
        } else if c == CONCAT || c == ALTERNATE || c == STAR || c == PLUS || c == OPTIONAL {
            let p = precedence_of(c);
            while opstack.len() > 0 && opstack[opstack.len() - 1] != '(' && precedence_of(
                opstack[opstack.len() - 1],
            ) >= p
                invariant
                    p == precedence(c),
                    pop_higher(before, p as int) == pop_higher(
                        Shunt { out: output@, ops: opstack@ },
                        p as int,
                    ),
                decreases opstack@.len(),
            {
                let top = opstack.pop().unwrap();
                output.push(top);
            }
            opstack.push(c);
        } else if is_literal_char(c) {
            output.push(c);
        }
        i += 1;
    }
    proof {
        assert(chars@.take(i as int) =~= chars@);
    }
    let ghost done = Shunt { out: output@, ops: opstack@ };
    while opstack.len() > 0
        invariant
            shunt(regex@) == Some(done),
            output@ + opstack@.reverse() == done.out + done.ops.reverse(),
            done.ops.contains('(') <==> opstack@.contains('('),
        decreases opstack@.len(),
    {
        let ghost ops_before = opstack@;
        let ghost out_before = output@;
        let op = opstack.pop().unwrap();
        if op == '(' {
            proof {
                assert(ops_before[ops_before.len() - 1] == '(');
                assert(ops_before.contains('('));
            }
            return None;
        }
        output.push(op);
        proof {
            assert(ops_before.reverse() =~= seq![op] + opstack@.reverse());
            assert(output@ + opstack@.reverse() =~= out_before + ops_before.reverse());
            assert forall|x: char| ops_before.contains(x) && x != op implies opstack@.contains(x) by {
                let k = choose|k: int| 0 <= k < ops_before.len() && ops_before[k] == x;
                assert(opstack@[k] == x);
            }
            if opstack@.contains('(') {
                let k = choose|k: int| 0 <= k < opstack@.len() && opstack@[k] == '(';
                assert(ops_before[k] == '(');
            }
        }
    }
    proof {
        assert(opstack@.reverse() =~= Seq::<char>::empty());
        assert(output@ + opstack@.reverse() =~= output@);
    }
    Some(string_of(&output))
}

/// The characters of `s` that lie outside the alphabet, in order.
pub open spec fn unknown_characters(s: Seq<char>) -> Seq<char> {
    s.filter(|c: char| !in_alphabet(c))
}

/// Lists the characters of a pattern that the conversion to postfix form
/// skips because they lie outside the alphabet.
pub fn skipped_characters(regex: &String) -> (r: Vec<char>)
    ensures
        r@ == unknown_characters(regex@),
{
    let chars = chars_of(regex.as_str());
    let mut skipped: Vec<char> = Vec::new();
    let mut i: usize = 0;
    proof {
        assert(chars@.take(0) =~= Seq::<char>::empty());
        assert(unknown_characters(Seq::<char>::empty()) =~= Seq::<char>::empty());
    }
    while i < chars.len()
        invariant
            chars@ == regex@,
            i <= chars@.len(),
            skipped@ == unknown_characters(chars@.take(i as int)),
        decreases chars@.len() - i,
    {
        let c = chars[i];
        proof {
            assert(chars@.take(i + 1) =~= chars@.take(i as int).push(c));
            chars@.take(i as int).lemma_filter_push(c, |c: char| !in_alphabet(c));
        }
        if !is_in_alphabet(c) {
            skipped.push(c);
        }
        i += 1;
    }
    proof {
        assert(chars@.take(i as int) =~= chars@);
    }
    skipped
}

/// The nondeterministic automaton of a pattern; `None` when the pattern is
/// malformed.
pub open spec fn nfa_of(pattern: Seq<char>) -> Option<Automaton> {
    match postfix_of(with_concatenation(pattern)) {
        Some(postfix) => thompson_automaton(postfix),
        None => None,
    }
}

/// The syntax tree of a pattern; `None` when the pattern is malformed.
pub open spec fn tree_of(pattern: Seq<char>) -> Option<Expr> {
    match postfix_of(with_concatenation(pattern)) {
        Some(postfix) => syntax_tree(postfix),
        None => None,
    }
}

/// Compiles a pattern to a nondeterministic automaton.
///
/// Fails, without building anything, when the parentheses of the pattern
/// do not match or an operator lacks an operand.  Otherwise the automaton
/// is the one that Thompson's construction builds for the syntax tree of
/// the pattern, and it accepts exactly the words that match the tree.
pub fn parse_to_nfa(input: &String) -> (r: Option<FA>)
    ensures
        match r {
            Some(fa) => {
                &&& fa.wf()
                &&& nfa_of(input@) == Some(fa@)
                &&& fa@.valid()
                &&& fa@.labelled_within_alphabet()
                &&& tree_of(input@) matches Some(tree)
                &&& forall|w: Seq<char>| #[trigger] fa@.accepts(w) == tree.matches(w)
            },
            None => nfa_of(input@) is None,
        },
{
    let with_concat = add_concatenation(input);
    match to_postfix(&with_concat) {
        None => None,
        Some(postfix) => {
            let r = parse_to_finite_automata(&postfix);
            proof {
                if r is Some {
                    let expr = syntax_tree(postfix@)->0;
                    expr.lemma_fragment_shaped(0);
                    lemma_fragment_automaton_valid(expr.fragment(0), 0, expr.ids_needed());
                    lemma_thompson_labels(postfix@);
                    assert forall|w: Seq<char>| #[trigger]
                        r->0@.accepts(w) == expr.matches(w) by {
                        lemma_thompson_language(postfix@, w);
                    }
                }
            }
            r
        },
    }
}

/// Compiles a pattern to a deterministic automaton.
///
/// Fails on the patterns on which [`parse_to_nfa`] fails.  Otherwise the
/// result is the determinization of the automaton of the pattern: it is
/// deterministic, and its simulation accepts exactly the words that match
/// the syntax tree of the pattern.
pub fn parse_to_dfa(input: &String) -> (r: Option<FA>)
    ensures
        match r {
            Some(d) => {
                &&& nfa_of(input@) matches Some(nfa)
                &&& tree_of(input@) matches Some(tree)
                &&& d.wf()
                &&& exists|table: Seq<Set<State>>| nfa.determinized_by(d@, table)
                &&& d@.valid()
                &&& d@.deterministic()
                &&& forall|w: Seq<char>|
                    #![trigger d@.accepts(w)]
                    #![trigger d@.simulate(w)]
                    d@.accepts(w) == tree.matches(w) && d@.simulate(w) == tree.matches(w)
                &&& d@.states.len() <= pow2(nfa.state_set().len())
            },
            None => nfa_of(input@) is None,
        },
{
    match parse_to_nfa(input) {
        Some(nfa) => {
            let d = nfa.dfa_from();
            proof {
                let tree = tree_of(input@)->0;
                assert forall|w: Seq<char>|
                    #![trigger d@.accepts(w)]
                    #![trigger d@.simulate(w)]
                    d@.accepts(w) == tree.matches(w) && d@.simulate(w) == tree.matches(w) by {
                    assert(nfa@.covers(w));
                    assert(nfa@.accepts(w) == tree.matches(w));
                }
            }
            Some(d)
        },
        None => None,
    }
}

} // verus!
