//! The mathematical model of an automaton and of the languages it defines.
use vstd::prelude::*;

verus! {

/// What an automaton is, as a value of mathematics: `size` states numbered
/// from zero, a square matrix of optional labels, and two flags per state.
pub struct Machine {
    pub size: nat,
    pub edges: Seq<Seq<Option<Seq<char>>>>,
    pub starts: Seq<bool>,
    pub finals: Seq<bool>,
}

/// The set of indices at which a row of flags is set.
pub open spec fn members(flags: Seq<bool>) -> Set<int> {
    Set::new(|i: int| 0 <= i < flags.len() && flags[i])
}

impl Machine {
    /// At least one state, a square matrix, and one flag of each kind per state.
    pub open spec fn well_sized(self) -> bool {
        &&& self.size >= 1
        &&& self.edges.len() == self.size
        &&& self.starts.len() == self.size
        &&& self.finals.len() == self.size
        &&& forall|i: int| 0 <= i < self.size ==> (#[trigger] self.edges[i]).len() == self.size
    }

    /// State zero is the one start state.
    pub open spec fn single_start(self) -> bool {
        forall|i: int| 0 <= i < self.starts.len() ==> (#[trigger] self.starts[i] <==> i == 0)
    }

    /// Every label is a single character or the empty word.
    pub open spec fn short_labels(self) -> bool {
        forall|i: int, j: int|
            0 <= i < self.edges.len() && 0 <= j < self.edges[i].len() ==> match #[trigger] self.edges[i][j] {
                Some(label) => label.len() <= 1,
                None => true,
            }
    }

    /// A genuine automaton: well sized, with one start state and short labels.
    pub open spec fn wf(self) -> bool {
        self.well_sized() && self.single_start() && self.short_labels()
    }

    /// There is an edge from `i` to `j` that reads the character `c`.
    pub open spec fn has_edge(self, i: int, c: char, j: int) -> bool {
        &&& 0 <= i < self.size
        &&& 0 <= j < self.size
        &&& self.edges[i][j] == Some(seq![c])
    }

    /// There is an edge from `i` to `j` that reads nothing.
    pub open spec fn has_silent_edge(self, i: int, j: int) -> bool {
        &&& 0 <= i < self.size
        &&& 0 <= j < self.size
        &&& self.edges[i][j] == Some(Seq::<char>::empty())
    }

    /// The automaton is deterministic: it has no silent edge, and from no
    /// state two edges that read the same character.
    pub open spec fn deterministic(self) -> bool {
        &&& forall|i: int, j: int| !(#[trigger] self.has_silent_edge(i, j))
        &&& forall|i: int, c: char, j1: int, j2: int|
            #[trigger] self.has_edge(i, c, j1) && #[trigger] self.has_edge(i, c, j2) ==> j1 == j2
    }

    /// The first state at or after `from` that `q` reaches by reading `c`.
    pub open spec fn first_edge(self, q: int, c: char, from: int) -> Option<int>
        decreases self.size - from,
    {
        if from < 0 || from >= self.size {
            None
        } else if self.has_edge(q, c, from) {
            Some(from)
        } else {
            self.first_edge(q, c, from + 1)
        }
    }

    /// The state that a deterministic walk moves to from `q` on `c`: the
    /// lowest-numbered target of an edge labelled `c`, if there is one.
    pub open spec fn step(self, q: int, c: char) -> Option<int> {
        self.first_edge(q, c, 0)
    }

    /// The state in which a deterministic walk over `word` from `q` ends, or
    /// `None` where it gets stuck.
    pub open spec fn walk(self, q: int, word: Seq<char>) -> Option<int>
        decreases word.len(),
    {
        if word.len() == 0 {
            Some(q)
        } else {
            match self.step(q, word[0]) {
                Some(next) => self.walk(next, word.drop_first()),
                None => None,
            }
        }
    }

    /// The verdict of a deterministic walk from the start state.
    pub open spec fn walk_accepts(self, word: Seq<char>) -> bool {
        match self.walk(0, word) {
            Some(q) => 0 <= q < self.finals.len() && self.finals[q],
            None => false,
        }
    }

    /// `j` is reached from `i` by exactly `n` silent edges.
    pub open spec fn silently_reaches_in(self, i: int, j: int, n: nat) -> bool
        decreases n,
    {
        if n == 0 {
            i == j && 0 <= i < self.size
        } else {
            exists|k: int| self.silently_reaches_in(i, k, (n - 1) as nat) && self.has_silent_edge(k, j)
        }
    }

    /// `j` is reached from `i` by silent edges alone.
    pub open spec fn silently_reaches(self, i: int, j: int) -> bool {
        exists|n: nat| self.silently_reaches_in(i, j, n)
    }

    /// The epsilon closure of a set of states.
    pub open spec fn closure(self, states: Set<int>) -> Set<int> {
        Set::new(|j: int| exists|i: int| states.contains(i) && self.silently_reaches(i, j))
    }

    /// The states entered from the closure of `states` by an edge labelled `c`.
    pub open spec fn delta(self, states: Set<int>, c: char) -> Set<int> {
        Set::new(|j: int| exists|i: int| self.closure(states).contains(i) && self.has_edge(i, c, j))
    }

    /// The states entered from `states` by reading `word`, closures taken
    /// before each character.
    pub open spec fn run(self, states: Set<int>, word: Seq<char>) -> Set<int>
        decreases word.len(),
    {
        if word.len() == 0 {
            states
        } else {
            self.run(self.delta(states, word[0]), word.drop_first())
        }
    }

    /// The closure of `states` holds an accepting state.
    pub open spec fn accepting(self, states: Set<int>) -> bool {
        exists|q: int| self.closure(states).contains(q) && 0 <= q < self.finals.len() && self.finals[q]
    }

    /// The language of the automaton read as a nondeterministic one with
    /// silent moves: some path from state zero that spells `word` ends in an
    /// accepting state.
    pub open spec fn accepts(self, word: Seq<char>) -> bool {
        self.accepting(self.run(set![0int], word))
    }
}

/// The first edge found lies in range, carries the label, and no earlier
/// state at or after `from` does.
pub proof fn lemma_first_edge(m: Machine, q: int, c: char, from: int)
    requires
        0 <= from,
    ensures
        match m.first_edge(q, c, from) {
            Some(j) => from <= j < m.size && m.has_edge(q, c, j) && forall|k: int|
                from <= k < j ==> !m.has_edge(q, c, k),
            None => forall|k: int| from <= k < m.size ==> !m.has_edge(q, c, k),
        },
    decreases m.size - from,
{
    if from < m.size && !m.has_edge(q, c, from) {
        lemma_first_edge(m, q, c, from + 1);
    }
}

} // verus!
