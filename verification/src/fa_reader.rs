//! Reading an automaton from its textual form.
//!
//! A state is given by a line `<state> <marker> <count>`, where the marker
//! is `=>` for an accepting state and `::` for any other, followed by
//! `<count>` lines that each give one transition leaving the state:
//! `<symbol> -> <end>`, or `-> <end>` for a transition that reads no input.
//! Outside the transitions of a state, empty lines, lines that begin with
//! `//` and lines of any other form are passed over.
//!
//! A line that cannot be read is reported and left out; the rest of the
//! text is still read.

use crate::automaton::Automaton;
use crate::fa::FA;
use crate::state_set::State;
use crate::symbol::Symbol;
use crate::text::{chars_of, fields, lemma_fields, number_of, parse_number, same_text, split_fields, texts};
use crate::transition::Transition;
use vstd::prelude::*;

verus! {

/// The marker of a state that is not accepting.
pub const STATE_SYMBOL: &'static str = "::";

/// The marker of an accepting state.
pub const ACCEPT_SYMBOL: &'static str = "=>";

/// What is wrong with a line.
#[derive(Debug, Clone, Copy, PartialEq, Eq, Structural)]
pub enum Complaint {
    /// A state, a count or an end is no number.
    BadNumber,
    /// A transition lacks its arrow; it is read all the same.
    MissingArrow,
    /// A transition has too few or too many parts.
    ExtraneousParts,
    /// The text ends before all transitions of the last state are given.
    MissingTransition,
}

/// A report on one line of the text.
#[derive(Debug, Clone, Copy, PartialEq, Eq, Structural)]
pub struct Diagnostic {
    /// The number of the line, counted from one.
    pub line: usize,
    /// What is wrong with it.
    pub complaint: Complaint,
}

/// The state of the reader between two lines.
pub struct Reading {
    /// The automaton read so far.
    pub fa: Automaton,
    /// The reports made so far.
    pub issues: Seq<Diagnostic>,
    /// The state whose transitions are being read.
    pub state: State,
    /// How many of its transitions are still to come.
    pub remaining: nat,
}

impl Reading {
    /// The reader before the first line.
    pub open spec fn start() -> Reading {
        Reading { fa: Automaton::empty(), issues: Seq::empty(), state: 0, remaining: 0 }
    }

    /// The reader after reporting `complaint` on line `line`.
    pub open spec fn note(self, line: usize, complaint: Complaint) -> Reading {
        Reading { issues: self.issues.push(Diagnostic { line, complaint }), ..self }
    }

    /// The reader after a transition from the current state was read.
    pub open spec fn transition(self, sym: Symbol, end: State) -> Reading {
        Reading {
            fa: Automaton {
                delta: self.fa.delta.push(Transition { sym, start: self.state, end }),
                ..self.fa
            },
            ..self
        }
    }

    /// The reader after the head of a state was read.
    pub open spec fn head(self, state: State, accepting: bool, count: usize) -> Reading {
        Reading {
            fa: Automaton {
                states: self.fa.states.push(state),
                accepting: if accepting {
                    self.fa.accepting.push(state)
                } else {
                    self.fa.accepting
                },
                ..self.fa
            },
            issues: self.issues,
            state,
            remaining: count as nat,
        }
    }

    /// The reader after the transition line with the fields `f`.  The end
    /// is the last field and the symbol the first character of the first of
    /// three fields; the field before the end should be an arrow.
    pub open spec fn transition_line(self, f: Seq<Seq<char>>, line: usize) -> Reading {
        if f.len() == 2 || f.len() == 3 {
            let sym = if f.len() == 2 {
                Symbol::Empty
            } else {
                Symbol::Char(f[0][0])
            };
            let noted = if f[f.len() - 2] == "->"@ {
                self
            } else {
                self.note(line, Complaint::MissingArrow)
            };
            match number_of(f[f.len() - 1]) {
                Some(end) => noted.transition(sym, end),
                None => noted.note(line, Complaint::BadNumber),
            }
        } else {
            self.note(line, Complaint::ExtraneousParts)
        }
    }

    /// The reader after a line outside the transitions of a state, with the
    /// fields `f`.
    pub open spec fn head_line(self, f: Seq<Seq<char>>, line: usize) -> Reading {
        if is_comment(f) {
            self
        } else if is_head(f) {
            match (number_of(f[0]), number_of(f[2])) {
                (Some(state), Some(count)) => self.head(state, f[1] == ACCEPT_SYMBOL@, count),
                _ => self.note(line, Complaint::BadNumber),
            }
        } else {
            self
        }
    }

    /// The reader after the line `text`, which is line number `line`.
    pub open spec fn step(self, text: Seq<char>, line: usize) -> Reading {
        if self.remaining > 0 {
            Reading { remaining: (self.remaining - 1) as nat, ..self }.transition_line(
                fields(text),
                line,
            )
        } else {
            self.head_line(fields(text), line)
        }
    }

    /// The reader after all of `lines`.
    pub open spec fn after(lines: Seq<Seq<char>>) -> Reading
        decreases lines.len(),
    {
        if lines.len() == 0 {
            Self::start()
        } else {
            Self::after(lines.drop_last()).step(lines.last(), lines.len() as usize)
        }
    }

    /// The reader at the end of a text of `count` lines: transitions still
    /// to come are reported as missing.
    pub open spec fn finish(self, count: usize) -> Reading {
        if self.remaining > 0 {
            self.note(count, Complaint::MissingTransition)
        } else {
            self
        }
    }
}

/// The line is empty or begins a comment.
pub open spec fn is_comment(f: Seq<Seq<char>>) -> bool {
    f.len() == 0 || (f[0].len() >= 2 && f[0][0] == '/' && f[0][1] == '/')
}

/// The line has the form of the head of a state.
pub open spec fn is_head(f: Seq<Seq<char>>) -> bool {
    f.len() == 3 && (f[1] == STATE_SYMBOL@ || f[1] == ACCEPT_SYMBOL@)
}

/// The texts of a vector of strings.
pub open spec fn line_texts(lines: Seq<String>) -> Seq<Seq<char>> {
    lines.map_values(|s: String| s@)
}

/// The automaton that the text `lines` describes, and the reports on its
/// lines.
pub open spec fn read_text(lines: Seq<Seq<char>>) -> Reading {
    Reading::after(lines).finish(lines.len() as usize)
}

/// Reads an automaton from the lines of its textual form.
///
/// Returns the automaton together with a report for every line that could
/// not be read as it stands.  The starting state of the automaton is 0.
pub fn from_lines(lines: &Vec<String>) -> (r: (FA, Vec<Diagnostic>))
    ensures
        r.0.wf(),
        r.0@ == read_text(line_texts(lines@)).fa,
        r.1@ == read_text(line_texts(lines@)).issues,
{
    let ghost all = line_texts(lines@);
    let mut fa = FA::new();
    let mut issues: Vec<Diagnostic> = Vec::new();
    let mut state: State = 0;
    let mut remaining: usize = 0;
    let arrow = chars_of("->");
    let plain = chars_of(STATE_SYMBOL);
    let accept = chars_of(ACCEPT_SYMBOL);
    let mut i: usize = 0;
    proof {
        assert(all.take(0) =~= Seq::<Seq<char>>::empty());
    }
    while i < lines.len()
        invariant
            all == line_texts(lines@),
            arrow@ == "->"@,
            plain@ == STATE_SYMBOL@,
            accept@ == ACCEPT_SYMBOL@,
            i <= lines@.len(),
            fa.wf(),
            Reading::after(all.take(i as int)) == (Reading {
                fa: fa@,
                issues: issues@,
                state,
                remaining: remaining as nat,
            }),
        decreases lines@.len() - i,
    {
        let number = i + 1;
        let text = chars_of(lines[i].as_str());
        let f = split_fields(&text);
        let ghost before = Reading::after(all.take(i as int));
        proof {
            assert(all.take(i + 1).drop_last() =~= all.take(i as int));
            assert(all.take(i + 1).last() == text@);
            lemma_fields(text@);
            assert(texts(f@).len() == f@.len());
            assert forall|k: int| 0 <= k < f@.len() implies texts(f@)[k] == (#[trigger] f@[k])@ by {}
        }
        if remaining > 0 {
            remaining = remaining - 1;
            if f.len() == 2 || f.len() == 3 {
                let sym = if f.len() == 2 {
                    Symbol::Empty
                } else {
                    Symbol::Char(f[0][0])
                };
                if !same_text(&f[f.len() - 2], &arrow) {
                    issues.push(Diagnostic { line: number, complaint: Complaint::MissingArrow });
                }
                match parse_number(&f[f.len() - 1]) {
                    Some(end) => {
                        fa.add_transition(Transition::from(sym, state, end));
                    },
                    None => {
                        issues.push(Diagnostic { line: number, complaint: Complaint::BadNumber });
                    },
                }
            } else {
                issues.push(Diagnostic { line: number, complaint: Complaint::ExtraneousParts });
            }
        } else {
            let comment = f.len() == 0 || (f[0].len() >= 2 && f[0][0] == '/' && f[0][1] == '/');
            if !comment && f.len() == 3 && (same_text(&f[1], &plain) || same_text(&f[1], &accept)) {
                match (parse_number(&f[0]), parse_number(&f[2])) {
                    (Some(s), Some(count)) => {
                        fa.add_state(s);
                        if same_text(&f[1], &accept) {
                            fa.add_acceptor(s);
                        }
                        state = s;
                        remaining = count;
                    },
                    _ => {
                        issues.push(Diagnostic { line: number, complaint: Complaint::BadNumber });
                    },
                }
            }
        }
        i += 1;
    }
    proof {
        assert(all.take(i as int) =~= all);
    }
    if remaining > 0 {
        issues.push(Diagnostic { line: lines.len(), complaint: Complaint::MissingTransition });
    }
    (fa, issues)
}

} // verus!
