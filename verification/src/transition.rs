//! Labelled edges between states, and between sets of states.

use crate::state_set::{State, StateSet};
use crate::symbol::Symbol;
use vstd::prelude::*;

verus! {

/// An edge of an automaton: reading `sym` in state `start` leads to `end`.
#[derive(Debug, Clone, Copy, PartialEq, Eq, Hash, Structural)]
pub struct Transition {
    pub sym: Symbol,
    pub start: State,
    pub end: State,
}

impl Transition {
    /// Builds the edge `start --sym--> end`.
    pub fn from(sym: Symbol, start: State, end: State) -> (t: Self)
        ensures
            t == (Transition { sym, start, end }),
    {
        Self { sym, start, end }
    }

    /// The label of the edge.
    pub fn sym(&self) -> (sym: Symbol)
        ensures
            sym == self.sym,
    {
        self.sym
    }

    /// The state the edge leaves.
    pub fn start(&self) -> (s: State)
        ensures
            s == self.start,
    {
        self.start
    }

    /// Redirects the edge to leave `s`.
    pub fn set_start(&mut self, s: State)
        ensures
            *final(self) == (Transition { start: s, ..*old(self) }),
    {
        self.start = s;
    }

    /// The state the edge enters.
    pub fn end(&self) -> (s: State)
        ensures
            s == self.end,
    {
        self.end
    }

    /// Redirects the edge to enter `s`.
    pub fn set_end(&mut self, s: State)
        ensures
            *final(self) == (Transition { end: s, ..*old(self) }),
    {
        self.end = s;
    }
}

/// An edge between two sets of states, as a mathematical value.
pub struct SetEdge {
    pub sym: Symbol,
    pub begin: Set<State>,
    pub end: Set<State>,
}

/// An edge of the subset automaton: reading `sym` in the set `begin` leads to
/// the set `end`.
#[derive(Debug, PartialEq, Eq, Hash)]
pub struct SetTransition {
    pub sym: Symbol,
    pub begin: StateSet,
    pub end: StateSet,
}

impl View for SetTransition {
    type V = SetEdge;

    open spec fn view(&self) -> SetEdge {
        SetEdge { sym: self.sym, begin: self.begin@, end: self.end@ }
    }
}

impl SetTransition {
    /// Both sets are stored in canonical form.
    pub open spec fn wf(&self) -> bool {
        self.begin.wf() && self.end.wf()
    }

    /// Builds the edge `begin --sym--> end`.
    pub fn from(sym: Symbol, begin: StateSet, end: StateSet) -> (t: Self)
        ensures
            t.sym == sym,
            t.begin == begin,
            t.end == end,
    {
        Self { sym, begin, end }
    }

    /// The label of the edge.
    pub fn sym(&self) -> (sym: Symbol)
        ensures
            sym == self.sym,
    {
        self.sym
    }

    /// The set the edge leaves.
    pub fn begin(&self) -> (s: &StateSet)
        ensures
            *s == self.begin,
    {
        &self.begin
    }

    /// The set the edge enters.
    pub fn end(&self) -> (s: &StateSet)
        ensures
            *s == self.end,
    {
        &self.end
    }
}

impl Clone for SetTransition {
    fn clone(&self) -> (t: Self)
        ensures
            t@ == self@,
            self.wf() ==> t.wf(),
    {
        SetTransition { sym: self.sym, begin: self.begin.clone(), end: self.end.clone() }
    }
}

} // verus!
