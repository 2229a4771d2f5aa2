//! Regular expressions compiled to finite automata.
//!
//! A pattern is given explicit concatenation operators and rewritten to
//! postfix form ([`regex_parser`]), folded into a syntax tree and assembled
//! into a nondeterministic automaton by Thompson's construction
//! ([`thompsons`]), and determinized by the subset construction
//! ([`determinize`]).  Epsilon-closure and symbol moves ([`closure`]) serve
//! both constructions; [`simulate`] runs a deterministic automaton on a
//! string.
//!
//! Every function carries a contract over the mathematical model of its
//! data: [`automaton::Automaton`] for automata, sets of states for
//! [`state_set::StateSet`], sequences of characters for strings.  The
//! contracts are checked by Verus.  Beyond the contracts the library
//! proves what its constructions mean:
//!
//! * the automaton built for a pattern accepts exactly the words that match
//!   the syntax tree of the pattern ([`construction_language`]);
//! * determinization preserves the language and yields a deterministic
//!   automaton of bounded size ([`determinize`]);
//! * on a deterministic automaton the simulation decides the language
//!   ([`simulate`]).
//!
//! Automata can be written as text ([`fa_writer`]), read back
//! ([`fa_reader`]) and drawn as a graph ([`fa_drawer`]).

pub mod automaton;
pub mod closure;
pub mod construction_language;
pub mod determinize;
pub mod fa;
pub mod fa_drawer;
pub mod fa_reader;
pub mod fa_writer;
pub mod fragment_laws;
pub mod language;
pub mod regex_parser;
pub mod simulate;
pub mod state_set;
pub mod subsets;
pub mod symbol;
pub mod text;
pub mod thompsons;
pub mod transition;
