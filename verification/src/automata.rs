//! Finite automata over single characters, with silent moves.
use vstd::prelude::*;
use vstd::string::*;

pub mod closure;
pub mod determinize;
pub mod discovery;
pub mod elimination;
pub mod model;
pub mod regex;
pub mod subset;

use crate::automata::model::{lemma_first_edge, Machine};
use crate::automata::subset::determinizes;

verus! {

/// The number of the start state.
pub const START: usize = 0;

/// What a cell of the matrix holds, as a value of mathematics.
pub open spec fn label_view(cell: Option<String>) -> Option<Seq<char>> {
    match cell {
        Some(label) => Some(label@),
        None => None,
    }
}

/// A finite automaton as a square matrix of optional labels. A label is a
/// single character, or the empty word for a silent move.
#[derive(Debug, Clone, PartialEq)]
pub struct AutomataImpl {
    pub size: usize,
    pub transitions: Vec<Vec<Option<String>>>,
    pub start_states: Vec<bool>,
    pub finite_states: Vec<bool>,
}

impl View for AutomataImpl {
    type V = Machine;

    open spec fn view(&self) -> Machine {
        Machine {
            size: self.size as nat,
            edges: Seq::new(
                self.transitions.len() as nat,
                |i: int|
                    Seq::new(
                        self.transitions[i].len() as nat,
                        |j: int| label_view(self.transitions[i][j]),
                    ),
            ),
            starts: self.start_states@,
            finals: self.finite_states@,
        }
    }
}

/// What a hypothesis offers: a membership test, a deterministic form and a
/// regular expression. Of an implementation that does not say what the
/// three predicates below are, nothing is known.
pub trait Automata {
    /// The automaton is one that the three operations accept.
    open spec fn valid(&self) -> bool {
        arbitrary()
    }

    /// There is room for the one more state that state elimination adds.
    open spec fn has_room(&self) -> bool {
        arbitrary()
    }

    /// The verdict of the membership test on `word`.
    open spec fn verdict(&self, word: Seq<char>) -> bool {
        arbitrary()
    }

    /// `dfa` is a deterministic form of the automaton.
    open spec fn determinized_as(&self, dfa: Machine) -> bool {
        arbitrary()
    }

    /// The text of the regular expression of the automaton, `None` where
    /// its language is found empty.
    open spec fn regex_text(&self) -> Option<Seq<char>> {
        arbitrary()
    }

    /// Whether the automaton accepts `word`.
    fn check_membership(&self, word: &str) -> (member: bool)
        requires
            self.valid(),
        ensures
            member == self.verdict(word@),
    ;

    /// A deterministic automaton for the same moves.
    fn determinize(&self) -> (dfa: AutomataImpl)
        requires
            self.valid(),
        ensures
            dfa@.wf(),
            self.determinized_as(dfa@),
    ;

    /// A regular expression for the automaton, `None` where its language is
    /// found empty.
    fn to_regex(&self) -> (regex: Option<String>)
        requires
            self.valid(),
            self.has_room(),
        ensures
            label_view(regex) == self.regex_text(),
    ;
}

/// A row of `len` absent labels.
fn empty_row(len: usize) -> (row: Vec<Option<String>>)
    ensures
        row.len() == len,
        forall|j: int| 0 <= j < len ==> row[j] is None,
{
    let mut row: Vec<Option<String>> = Vec::new();
    let mut j: usize = 0;
    while j < len
        invariant
            j <= len,
            row.len() == j,
            forall|b: int| 0 <= b < j ==> row[b] is None,
        decreases len - j,
    {
        row.push(None);
        j += 1;
    }
    row
}

/// A row of `len` flags, all unset.
pub(crate) fn unset_flags(len: usize) -> (flags: Vec<bool>)
    ensures
        flags.len() == len,
        forall|j: int| 0 <= j < len ==> !flags[j],
{
    let mut flags: Vec<bool> = Vec::new();
    let mut j: usize = 0;
    while j < len
        invariant
            j <= len,
            flags.len() == j,
            forall|b: int| 0 <= b < j ==> !flags[b],
        decreases len - j,
    {
        flags.push(false);
        j += 1;
    }
    flags
}

/// Whether two rows of flags are equal.
pub fn same_flags(a: &Vec<bool>, b: &Vec<bool>) -> (same: bool)
    ensures
        same == (a@ == b@),
{
    if a.len() != b.len() {
        return false;
    }
    let mut i: usize = 0;
    while i < a.len()
        invariant
            a.len() == b.len(),
            i <= a.len(),
            forall|k: int| 0 <= k < i ==> a[k] == b[k],
        decreases a.len() - i,
    {
        if a[i] != b[i] {
            return false;
        }
        i += 1;
    }
    assert(a@ =~= b@);
    true
}

/// Whether a cell holds exactly the one-character label `c`.
pub(crate) fn cell_reads(cell: &Option<String>, c: char) -> (reads: bool)
    ensures
        reads == (label_view(*cell) == Some(seq![c])),
{
    match cell {
        Some(label) => {
            let label: &str = label.as_str();
            if label.unicode_len() == 1 {
                let found: bool = label.get_char(0) == c;
                assert(found ==> label@ =~= seq![c]);
                found
            } else {
                false
            }
        },
        None => false,
    }
}

/// Whether a cell holds the empty label, a silent move.
pub(crate) fn cell_is_silent(cell: &Option<String>) -> (silent: bool)
    ensures
        silent == (label_view(*cell) == Some(Seq::<char>::empty())),
{
    match cell {
        Some(label) => {
            let silent: bool = label.as_str().unicode_len() == 0;
            assert(silent ==> label@ =~= Seq::<char>::empty());
            silent
        },
        None => false,
    }
}

impl AutomataImpl {
    /// An automaton of `size` states without edges and without accepting
    /// states, whose start state is state zero.
    pub fn new(size: usize) -> (automata: Self)
        requires
            size >= 1,
        ensures
            automata@.wf(),
            automata@.size == size,
            forall|i: int, j: int| 0 <= i < size && 0 <= j < size ==> automata@.edges[i][j] is None,
            forall|i: int| 0 <= i < size ==> !automata@.finals[i],
    {
        let mut start_states = unset_flags(size);
        start_states[START] = true;
        let mut transitions: Vec<Vec<Option<String>>> = Vec::new();
        let mut i: usize = 0;
        while i < size
            invariant
                i <= size,
                transitions.len() == i,
                forall|a: int| 0 <= a < i ==> (#[trigger] transitions[a]).len() == size,
                forall|a: int, b: int| 0 <= a < i && 0 <= b < size ==> transitions[a][b] is None,
            decreases size - i,
        {
            transitions.push(empty_row(size));
            i += 1;
        }
        let finite_states = unset_flags(size);
        Self { start_states, transitions, finite_states, size }
    }

    /// Writes `label` into the cell for the edge from `i` to `j`.
    pub fn set_cell(&mut self, i: usize, j: usize, label: Option<String>)
        requires
            old(self)@.well_sized(),
            i < old(self).size,
            j < old(self).size,
        ensures
            final(self)@ == (Machine {
                edges: old(self)@.edges.update(i as int, old(self)@.edges[i as int].update(j as int, label_view(label))),
                ..old(self)@
            }),
            final(self)@.well_sized(),
    {
        let ghost before = self@;
        assert(before.edges[i as int].len() == self.size);
        self.transitions[i][j] = label;
        proof {
            let after = before.edges.update(i as int, before.edges[i as int].update(j as int, label_view(label)));
            assert(self@.edges.len() == after.len());
            assert forall|a: int| 0 <= a < after.len() implies #[trigger] self@.edges[a] =~= after[a] by {
                assert(before.edges[a].len() == self.size);
            }
            assert(self@.edges =~= after);
        }
    }

    /// Marks state `i` as accepting.
    pub fn set_final(&mut self, i: usize)
        requires
            old(self)@.well_sized(),
            i < old(self).size,
        ensures
            final(self)@ == (Machine { finals: old(self)@.finals.update(i as int, true), ..old(self)@ }),
            final(self)@.well_sized(),
    {
        let ghost before = self@;
        self.finite_states[i] = true;
        proof {
            assert(self@.edges =~= before.edges);
        }
    }

    /// The state that a deterministic walk moves to from `state` on `c`.
    fn next_state(&self, state: usize, c: char) -> (next: Option<usize>)
        requires
            self@.well_sized(),
            state < self.size,
        ensures
            match next {
                Some(j) => self@.step(state as int, c) == Some(j as int) && j < self.size,
                None => self@.step(state as int, c) is None,
            },
    {
        let mut j: usize = 0;
        while j < self.size
            invariant
                self@.well_sized(),
                state < self.size,
                j <= self.size,
                forall|k: int| 0 <= k < j ==> !self@.has_edge(state as int, c, k),
            decreases self.size - j,
        {
            assert(self@.edges[state as int].len() == self.size);
            if cell_reads(&self.transitions[state][j], c) {
                proof {
                    assert(self@.has_edge(state as int, c, j as int));
                    lemma_first_edge(self@, state as int, c, 0);
                }
                return Some(j);
            }
            j += 1;
        }
        proof {
            lemma_first_edge(self@, state as int, c, 0);
        }
        None
    }

    /// Walks the automaton from the start state along the first matching edge
    /// for each character of `word`, and says whether the walk ends in an
    /// accepting state. On a deterministic automaton without silent moves
    /// this decides its language.
    pub fn check_membership(&self, word: &str) -> (member: bool)
        requires
            self@.well_sized(),
        ensures
            member == self@.walk_accepts(word@),
    {
        let len: usize = word.unicode_len();
        let mut state: usize = START;
        let mut i: usize = 0;
        assert(word@.skip(0) =~= word@);
        while i < len
            invariant
                self@.well_sized(),
                len == word@.len(),
                i <= len,
                state < self.size,
                self@.walk(0, word@) == self@.walk(state as int, word@.skip(i as int)),
            decreases len - i,
        {
            let c: char = word.get_char(i);
            assert(word@.skip(i as int)[0] == c);
            assert(word@.skip(i as int).drop_first() =~= word@.skip(i + 1));
            match self.next_state(state, c) {
                Some(next) => {
                    state = next;
                },
                None => {
                    return false;
                },
            }
            i += 1;
        }
        assert(word@.skip(len as int).len() == 0);
        self.finite_states[state]
    }
}

impl Automata for AutomataImpl {
    open spec fn valid(&self) -> bool {
        self@.wf()
    }

    open spec fn has_room(&self) -> bool {
        self.size < usize::MAX
    }

    open spec fn verdict(&self, word: Seq<char>) -> bool {
        self@.walk_accepts(word)
    }

    open spec fn determinized_as(&self, dfa: Machine) -> bool {
        dfa == self@.determinized() && determinizes(self@, dfa)
    }

    open spec fn regex_text(&self) -> Option<Seq<char>> {
        self@.regex()
    }

    fn check_membership(&self, word: &str) -> (member: bool) {
        AutomataImpl::check_membership(self, word)
    }

    fn determinize(&self) -> (dfa: AutomataImpl) {
        AutomataImpl::determinize(self)
    }

    fn to_regex(&self) -> (regex: Option<String>) {
        AutomataImpl::to_regex(self)
    }
}

} // verus!
