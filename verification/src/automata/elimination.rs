//! State elimination: from an automaton to a regular expression.
use vstd::prelude::*;
use vstd::string::*;

use crate::automata::model::Machine;
use crate::automata::regex::composed;
use crate::automata::{label_view, AutomataImpl, START};

verus! {

/// A sequence after a swap-removal at `k`: the last element takes the place
/// of the removed one.
pub open spec fn swap_removed<T>(s: Seq<T>, k: int) -> Seq<T> {
    s.update(k, s.last()).drop_last()
}

impl Machine {
    /// The automaton made ready for state elimination: one more state, the
    /// only accepting one, which every formerly accepting state reaches by a
    /// silent edge.
    pub open spec fn prepared(self) -> Machine {
        Machine {
            size: self.size + 1,
            edges: Seq::new(
                self.size + 1,
                |i: int|
                    Seq::new(
                        self.size + 1,
                        |j: int|
                            if i < self.size && j < self.size {
                                self.edges[i][j]
                            } else if i < self.size && self.finals[i] {
                                Some(Seq::<char>::empty())
                            } else {
                                None
                            },
                    ),
            ),
            starts: Seq::new(self.size + 1, |i: int| i == 0),
            finals: Seq::new(self.size + 1, |i: int| i == self.size),
        }
    }

    /// A state that is neither a start state nor an accepting one.
    pub open spec fn inner(self, q: int) -> bool {
        0 <= q < self.size && !self.starts[q] && !self.finals[q]
    }

    /// The first inner state at or after `from`; the number of states where
    /// there is none.
    pub open spec fn first_inner(self, from: int) -> int
        decreases self.size - from,
    {
        if from < 0 || from >= self.size {
            self.size as int
        } else if self.inner(from) {
            from
        } else {
            self.first_inner(from + 1)
        }
    }

    /// The automaton in which every path of two edges through `k` has been
    /// folded into the direct edge between its ends.
    pub open spec fn rerouted(self, k: int) -> Machine {
        Machine {
            edges: Seq::new(
                self.size,
                |i: int|
                    Seq::new(
                        self.size,
                        |j: int|
                            if i != k && j != k && self.edges[i][k] is Some && self.edges[k][j] is Some {
                                Some(composed(self.edges[i][j], self.edges[i][k]->0, self.edges[k][k], self.edges[k][j]->0))
                            } else {
                                self.edges[i][j]
                            },
                    ),
            ),
            ..self
        }
    }

    /// The automaton without state `k`: the last state takes its number.
    pub open spec fn without(self, k: int) -> Machine {
        Machine {
            size: (self.size - 1) as nat,
            edges: swap_removed(self.edges, k).map_values(|row: Seq<Option<Seq<char>>>| swap_removed(row, k)),
            starts: swap_removed(self.starts, k),
            finals: swap_removed(self.finals, k),
        }
    }

    /// What state elimination leaves: inner states are removed one by one,
    /// the first one each time, and the paths through each are folded into
    /// direct edges; the result is the label from the start state to the
    /// last state once no inner state is left.
    pub open spec fn eliminated(self) -> Option<Seq<char>>
        decreases self.size,
    {
        let k = self.first_inner(0);
        if 0 <= k < self.size {
            self.rerouted(k).without(k).eliminated()
        } else if self.edges.len() > 0 && self.edges[0].len() > 0 {
            self.edges[0].last()
        } else {
            None
        }
    }

    /// The regular expression of the automaton, `None` where state
    /// elimination finds no path to an accepting state.
    pub open spec fn regex(self) -> Option<Seq<char>> {
        self.prepared().eliminated()
    }
}

/// `out` lists, in rising order, the states other than `i` that `i` has an
/// edge to.
pub open spec fn lists_targets(m: Machine, i: int, out: Seq<usize>) -> bool {
    &&& forall|x: int| 0 <= x < out.len() ==> (#[trigger] out[x]) < m.size && out[x] != i && m.edges[i][out[x] as int] is Some
    &&& forall|x: int, y: int| 0 <= x < y < out.len() ==> out[x] < out[y]
    &&& forall|j: int|
        0 <= j < m.size && j != i && (#[trigger] m.edges[i][j]) is Some ==> exists|x: int|
            0 <= x < out.len() && #[trigger] out[x] == j
}

/// `out` lists, in rising order, the states other than `i` that have an edge
/// to `i`.
pub open spec fn lists_sources(m: Machine, i: int, out: Seq<usize>) -> bool {
    &&& forall|x: int| 0 <= x < out.len() ==> (#[trigger] out[x]) < m.size && out[x] != i && m.edges[out[x] as int][i] is Some
    &&& forall|x: int, y: int| 0 <= x < y < out.len() ==> out[x] < out[y]
    &&& forall|j: int|
        0 <= j < m.size && j != i && (#[trigger] m.edges[j][i]) is Some ==> exists|x: int|
            0 <= x < out.len() && #[trigger] out[x] == j
}

/// The cell `(x, y)` is the end pair of one of the paths folded so far, when
/// the sources are taken in order and, for each, the targets in order, up to
/// source number `a` and target number `b`.
pub open spec fn folded(sources: Seq<usize>, targets: Seq<usize>, x: int, y: int, a: int, b: int) -> bool {
    exists|a2: int, b2: int|
        0 <= a2 < sources.len() && 0 <= b2 < targets.len() && #[trigger] sources[a2] == x && #[trigger] targets[b2]
            == y && (a2 < a || (a2 == a && b2 < b))
}

/// The first inner state at or after `from` is an inner state, or there is
/// none and the result is the number of states.
pub proof fn lemma_first_inner(m: Machine, from: int)
    requires
        0 <= from,
    ensures
        from <= m.first_inner(from) || m.first_inner(from) == m.size,
        m.first_inner(from) <= m.size,
        m.first_inner(from) < m.size ==> m.inner(m.first_inner(from)),
        forall|q: int| from <= q < m.first_inner(from) ==> !m.inner(q),
    decreases m.size - from,
{
    if from < m.size && !m.inner(from) {
        lemma_first_inner(m, from + 1);
    }
}

/// A copy of a cell.
pub(crate) fn copy_cell(cell: &Option<String>) -> (copy: Option<String>)
    ensures
        copy == *cell,
{
    match cell {
        Some(label) => Some(label.clone()),
        None => None,
    }
}

impl AutomataImpl {
    /// The automaton made ready for state elimination.
    pub fn prepare_for_state_elimination(&self) -> (automata: AutomataImpl)
        requires
            self@.well_sized(),
            self.size < usize::MAX,
        ensures
            automata@ == self@.prepared(),
            automata@.well_sized(),
    {
        let n: usize = self.size;
        let ghost goal = self@.prepared();
        let mut automata = AutomataImpl::new(n + 1);
        let mut i: usize = 0;
        while i < n
            invariant
                n == self.size,
                n < usize::MAX,
                self@.well_sized(),
                goal == self@.prepared(),
                i <= n,
                automata@.well_sized(),
                automata@.single_start(),
                automata@.size == n + 1,
                forall|a: int| 0 <= a <= n ==> !automata@.finals[a],
                forall|a: int, b: int| 0 <= a < i && 0 <= b <= n ==> automata@.edges[a][b] == goal.edges[a][b],
                forall|a: int, b: int| i <= a <= n && 0 <= b <= n ==> automata@.edges[a][b] is None,
            decreases n - i,
        {
            let mut j: usize = 0;
            while j < n
                invariant
                    n == self.size,
                    n < usize::MAX,
                    self@.well_sized(),
                    goal == self@.prepared(),
                    i < n,
                    j <= n,
                    automata@.well_sized(),
                    automata@.single_start(),
                    automata@.size == n + 1,
                    forall|a: int| 0 <= a <= n ==> !automata@.finals[a],
                    forall|a: int, b: int| 0 <= a < i && 0 <= b <= n ==> automata@.edges[a][b] == goal.edges[a][b],
                    forall|b: int| 0 <= b < j ==> automata@.edges[i as int][b] == goal.edges[i as int][b],
                    forall|b: int| j <= b <= n ==> automata@.edges[i as int][b] is None,
                    forall|a: int, b: int| i < a <= n && 0 <= b <= n ==> automata@.edges[a][b] is None,
                decreases n - j,
            {
                assert(self@.edges[i as int].len() == n);
                let label = copy_cell(&self.transitions[i][j]);
                automata.set_cell(i, j, label);
                j += 1;
            }
            if self.finite_states[i] {
                automata.set_cell(i, n, Some(String::new()));
            }
            i += 1;
        }
        automata.set_final(n);
        proof {
            let made = automata@;
            assert(made.edges.len() == goal.edges.len());
            assert forall|a: int| 0 <= a < made.edges.len() implies #[trigger] made.edges[a] =~= goal.edges[a] by {
                assert(made.edges[a].len() == n + 1);
            }
            assert(made.edges =~= goal.edges);
            assert(made.starts =~= goal.starts);
            assert(made.finals =~= goal.finals);
        }
        automata
    }

    /// The states other than `i` that `i` has an edge to, in rising order.
    pub fn get_outcoming_states(&self, i: usize) -> (outcoming_states: Vec<usize>)
        requires
            self@.well_sized(),
            i < self.size,
        ensures
            lists_targets(self@, i as int, outcoming_states@),
    {
        let mut outcoming_states: Vec<usize> = Vec::new();
        let mut j: usize = 0;
        while j < self.size
            invariant
                self@.well_sized(),
                i < self.size,
                j <= self.size,
                forall|x: int|
                    0 <= x < outcoming_states.len() ==> (#[trigger] outcoming_states[x]) < j && outcoming_states[x] != i
                        && self@.edges[i as int][outcoming_states[x] as int] is Some,
                forall|x: int, y: int| 0 <= x < y < outcoming_states.len() ==> outcoming_states[x] < outcoming_states[y],
                forall|b: int|
                    0 <= b < j && b != i && (#[trigger] self@.edges[i as int][b]) is Some ==> exists|x: int|
                        0 <= x < outcoming_states.len() && #[trigger] outcoming_states[x] == b,
            decreases self.size - j,
        {
            assert(self@.edges[i as int].len() == self.size);
            let present: bool = self.transitions[i][j].is_some();
            assert(present == (self@.edges[i as int][j as int] is Some));
            if present && j != i {
                let ghost before = outcoming_states@;
                outcoming_states.push(j);
                assert(outcoming_states[before.len() as int] == j);
                assert forall|b: int|
                    0 <= b < j + 1 && b != i && (#[trigger] self@.edges[i as int][b]) is Some implies exists|x: int|
                    0 <= x < outcoming_states.len() && #[trigger] outcoming_states[x] == b by {
                    if b < j {
                        let x = choose|x: int| 0 <= x < before.len() && #[trigger] before[x] == b;
                        assert(outcoming_states[x] == b);
                    }
                }
            }
            j += 1;
        }
        outcoming_states
    }

    /// The states other than `i` that have an edge to `i`, in rising order.
    pub fn get_incoming_states(&self, i: usize) -> (incoming_states: Vec<usize>)
        requires
            self@.well_sized(),
            i < self.size,
        ensures
            lists_sources(self@, i as int, incoming_states@),
    {
        let mut incoming_states: Vec<usize> = Vec::new();
        let mut j: usize = 0;
        while j < self.size
            invariant
                self@.well_sized(),
                i < self.size,
                j <= self.size,
                forall|x: int|
                    0 <= x < incoming_states.len() ==> (#[trigger] incoming_states[x]) < j && incoming_states[x] != i
                        && self@.edges[incoming_states[x] as int][i as int] is Some,
                forall|x: int, y: int| 0 <= x < y < incoming_states.len() ==> incoming_states[x] < incoming_states[y],
                forall|b: int|
                    0 <= b < j && b != i && (#[trigger] self@.edges[b][i as int]) is Some ==> exists|x: int|
                        0 <= x < incoming_states.len() && #[trigger] incoming_states[x] == b,
            decreases self.size - j,
        {
            assert(self@.edges[j as int].len() == self.size);
            let present: bool = self.transitions[j][i].is_some();
            assert(present == (self@.edges[j as int][i as int] is Some));
            if present && j != i {
                let ghost before = incoming_states@;
                incoming_states.push(j);
                assert(incoming_states[before.len() as int] == j);
                assert forall|b: int|
                    0 <= b < j + 1 && b != i && (#[trigger] self@.edges[b][i as int]) is Some implies exists|x: int|
                    0 <= x < incoming_states.len() && #[trigger] incoming_states[x] == b by {
                    if b < j {
                        let x = choose|x: int| 0 <= x < before.len() && #[trigger] before[x] == b;
                        assert(incoming_states[x] == b);
                    }
                }
            }
            j += 1;
        }
        incoming_states
    }

    /// Folds the path from `incoming` through `current` to `outcoming` into
    /// the direct edge from `incoming` to `outcoming`.
    pub fn eliminate_transition(&mut self, incoming: usize, current: usize, outcoming: usize)
        requires
            old(self)@.well_sized(),
            incoming < old(self).size,
            current < old(self).size,
            outcoming < old(self).size,
            old(self)@.edges[incoming as int][current as int] is Some,
            old(self)@.edges[current as int][outcoming as int] is Some,
        ensures
            final(self)@ == (Machine {
                edges: old(self)@.edges.update(
                    incoming as int,
                    old(self)@.edges[incoming as int].update(
                        outcoming as int,
                        Some(
                            composed(
                                old(self)@.edges[incoming as int][outcoming as int],
                                old(self)@.edges[incoming as int][current as int]->0,
                                old(self)@.edges[current as int][current as int],
                                old(self)@.edges[current as int][outcoming as int]->0,
                            ),
                        ),
                    ),
                ),
                ..old(self)@
            }),
            final(self)@.well_sized(),
    {
        assert(self@.edges[incoming as int].len() == self.size);
        assert(self@.edges[current as int].len() == self.size);
        let former_regex_opt = copy_cell(&self.transitions[incoming][outcoming]);
        let cyclic_regex_opt = copy_cell(&self.transitions[current][current]);
        let regex: String = match (&self.transitions[incoming][current], &self.transitions[current][outcoming]) {
            (Some(incoming_regex), Some(outcoming_regex)) => Self::compose_regex(
                &former_regex_opt,
                incoming_regex,
                &cyclic_regex_opt,
                outcoming_regex,
            ),
            _ => String::new(),
        };
        self.set_cell(incoming, outcoming, Some(regex));
    }

    /// Removes state `i`; the last state takes its number.
    pub fn eliminate_state(&mut self, i: usize)
        requires
            old(self)@.well_sized(),
            old(self).size >= 2,
            i < old(self).size,
        ensures
            final(self)@ == old(self)@.without(i as int),
            final(self)@.well_sized(),
    {
        let ghost before = self@;
        let ghost goal = self@.without(i as int);
        self.start_states.swap_remove(i);
        self.transitions.swap_remove(i);
        let rows: usize = self.transitions.len();
        let mut r: usize = 0;
        while r < rows
            invariant
                before.well_sized(),
                before.size >= 2,
                i < before.size,
                rows == before.size - 1,
                self.transitions.len() == rows,
                r <= rows,
                self.size == before.size,
                self.finite_states@ == before.finals,
                self.start_states@ == swap_removed(before.starts, i as int),
                forall|a: int|
                    0 <= a < r ==> self.transitions[a]@.map_values(|c: Option<String>| label_view(c)) == swap_removed(
                        swap_removed(before.edges, i as int)[a],
                        i as int,
                    ),
                forall|a: int|
                    r <= a < rows ==> self.transitions[a]@.map_values(|c: Option<String>| label_view(c)) == swap_removed(
                        before.edges,
                        i as int,
                    )[a],
            decreases rows - r,
        {
            let ghost row_before = self.transitions[r as int]@;
            assert(swap_removed(before.edges, i as int)[r as int].len() == before.size);
            assert(row_before.map_values(|c: Option<String>| label_view(c)).len() == before.size);
            self.transitions[r].swap_remove(i);
            proof {
                let row_after = self.transitions[r as int]@;
                assert(row_after.map_values(|c: Option<String>| label_view(c)) =~= swap_removed(
                    row_before.map_values(|c: Option<String>| label_view(c)),
                    i as int,
                ));
            }
            r += 1;
        }
        self.finite_states.swap_remove(i);
        self.size -= 1;
        proof {
            let after = self@;
            assert(after.edges.len() == goal.edges.len());
            assert forall|a: int| 0 <= a < after.edges.len() implies #[trigger] after.edges[a] =~= goal.edges[a] by {
                assert(after.edges[a] =~= self.transitions[a]@.map_values(|c: Option<String>| label_view(c)));
            }
            assert(after.edges =~= goal.edges);
        }
    }

    /// Folds every path of two edges through `current` into the direct edge
    /// between its ends.
    pub fn bypass_state(&mut self, current: usize)
        requires
            old(self)@.well_sized(),
            current < old(self).size,
        ensures
            final(self)@ == old(self)@.rerouted(current as int),
            final(self)@.well_sized(),
    {
        let ghost before = self@;
        let ghost goal = self@.rerouted(current as int);
        let ghost k = current as int;
        let incoming = self.get_incoming_states(current);
        let outcoming = self.get_outcoming_states(current);
        let mut a: usize = 0;
        while a < incoming.len()
            invariant
                before.well_sized(),
                goal == before.rerouted(k),
                k == current,
                current < before.size,
                lists_sources(before, k, incoming@),
                lists_targets(before, k, outcoming@),
                a <= incoming.len(),
                self@.well_sized(),
                self@.size == before.size,
                self@.starts == before.starts,
                self@.finals == before.finals,
                forall|x: int, y: int|
                    0 <= x < before.size && 0 <= y < before.size ==> #[trigger] self@.edges[x][y] == if folded(
                        incoming@,
                        outcoming@,
                        x,
                        y,
                        a as int,
                        0,
                    ) {
                        goal.edges[x][y]
                    } else {
                        before.edges[x][y]
                    },
            decreases incoming.len() - a,
        {
            let mut b: usize = 0;
            while b < outcoming.len()
                invariant
                    before.well_sized(),
                    goal == before.rerouted(k),
                    k == current,
                    current < before.size,
                    lists_sources(before, k, incoming@),
                    lists_targets(before, k, outcoming@),
                    a < incoming.len(),
                    b <= outcoming.len(),
                    self@.well_sized(),
                    self@.size == before.size,
                    self@.starts == before.starts,
                    self@.finals == before.finals,
                    forall|x: int, y: int|
                        0 <= x < before.size && 0 <= y < before.size ==> #[trigger] self@.edges[x][y] == if folded(
                            incoming@,
                            outcoming@,
                            x,
                            y,
                            a as int,
                            b as int,
                        ) {
                            goal.edges[x][y]
                        } else {
                            before.edges[x][y]
                        },
                decreases outcoming.len() - b,
            {
                let ghost mid = self@;
                let from: usize = incoming[a];
                let to: usize = outcoming[b];
                proof {
                    assert(!folded(incoming@, outcoming@, from as int, to as int, a as int, b as int)) by {
                        if folded(incoming@, outcoming@, from as int, to as int, a as int, b as int) {
                            let (a2, b2) = choose|a2: int, b2: int|
                                0 <= a2 < incoming.len() && 0 <= b2 < outcoming.len() && #[trigger] incoming[a2] == from
                                    && #[trigger] outcoming[b2] == to && (a2 < a || (a2 == a && b2 < b));
                            assert(a2 == a);
                            assert(b2 == b);
                        }
                    }
                    assert(!folded(incoming@, outcoming@, from as int, k, a as int, b as int));
                    assert(!folded(incoming@, outcoming@, k, k, a as int, b as int));
                    assert(!folded(incoming@, outcoming@, k, to as int, a as int, b as int));
                    assert(mid.edges[from as int][k] == before.edges[from as int][k]);
                    assert(mid.edges[k][k] == before.edges[k][k]);
                    assert(mid.edges[k][to as int] == before.edges[k][to as int]);
                    assert(mid.edges[from as int][to as int] == before.edges[from as int][to as int]);
                }
                self.eliminate_transition(from, current, to);
                proof {
                    let now = self@;
                    assert forall|x: int, y: int| 0 <= x < before.size && 0 <= y < before.size implies #[trigger] now.edges[x][y]
                        == if folded(incoming@, outcoming@, x, y, a as int, b + 1) {
                        goal.edges[x][y]
                    } else {
                        before.edges[x][y]
                    } by {
                        if x == from && y == to {
                            assert(folded(incoming@, outcoming@, x, y, a as int, b + 1)) by {
                                assert(incoming[a as int] == x && outcoming[b as int] == y);
                            }
                        } else {
                            assert(now.edges[x][y] == mid.edges[x][y]);
                            if folded(incoming@, outcoming@, x, y, a as int, b + 1) {
                                let (a2, b2) = choose|a2: int, b2: int|
                                    0 <= a2 < incoming.len() && 0 <= b2 < outcoming.len() && #[trigger] incoming[a2] == x
                                        && #[trigger] outcoming[b2] == y && (a2 < a || (a2 == a && b2 < b + 1));
                                assert(a2 < a || (a2 == a && b2 < b));
                                assert(folded(incoming@, outcoming@, x, y, a as int, b as int));
                            }
                            if folded(incoming@, outcoming@, x, y, a as int, b as int) {
                                let (a2, b2) = choose|a2: int, b2: int|
                                    0 <= a2 < incoming.len() && 0 <= b2 < outcoming.len() && #[trigger] incoming[a2] == x
                                        && #[trigger] outcoming[b2] == y && (a2 < a || (a2 == a && b2 < b));
                                assert(a2 < a || (a2 == a && b2 < b + 1));
                                assert(folded(incoming@, outcoming@, x, y, a as int, b + 1));
                            }
                        }
                    }
                }
                b += 1;
            }
            proof {
                assert forall|x: int, y: int| 0 <= x < before.size && 0 <= y < before.size implies (folded(
                    incoming@,
                    outcoming@,
                    x,
                    y,
                    a as int,
                    outcoming.len() as int,
                ) <==> folded(incoming@, outcoming@, x, y, a + 1, 0)) by {
                    if folded(incoming@, outcoming@, x, y, a as int, outcoming.len() as int) {
                        let (a2, b2) = choose|a2: int, b2: int|
                            0 <= a2 < incoming.len() && 0 <= b2 < outcoming.len() && #[trigger] incoming[a2] == x
                                && #[trigger] outcoming[b2] == y && (a2 < a || (a2 == a && b2 < outcoming.len()));
                        assert(a2 < a + 1 || (a2 == a + 1 && b2 < 0));
                    }
                    if folded(incoming@, outcoming@, x, y, a + 1, 0) {
                        let (a2, b2) = choose|a2: int, b2: int|
                            0 <= a2 < incoming.len() && 0 <= b2 < outcoming.len() && #[trigger] incoming[a2] == x
                                && #[trigger] outcoming[b2] == y && (a2 < a + 1 || (a2 == a + 1 && b2 < 0));
                        assert(a2 < a || (a2 == a && b2 < outcoming.len()));
                    }
                }
            }
            a += 1;
        }
        proof {
            let now = self@;
            assert(now.edges.len() == goal.edges.len());
            assert forall|x: int| 0 <= x < now.edges.len() implies #[trigger] now.edges[x] =~= goal.edges[x] by {
                assert(now.edges[x].len() == before.size);
                assert forall|y: int| 0 <= y < before.size implies now.edges[x][y] == goal.edges[x][y] by {
                    let whole = folded(incoming@, outcoming@, x, y, incoming.len() as int, 0);
                    if !whole {
                        if x != k && y != k && before.edges[x][k] is Some && before.edges[k][y] is Some {
                            let a2 = choose|a2: int| 0 <= a2 < incoming.len() && #[trigger] incoming[a2] == x;
                            let b2 = choose|b2: int| 0 <= b2 < outcoming.len() && #[trigger] outcoming[b2] == y;
                            assert(folded(incoming@, outcoming@, x, y, incoming.len() as int, 0));
                        }
                    } else {
                        let (a2, b2) = choose|a2: int, b2: int|
                            0 <= a2 < incoming.len() && 0 <= b2 < outcoming.len() && #[trigger] incoming[a2] == x
                                && #[trigger] outcoming[b2] == y && (a2 < incoming.len() || (a2 == incoming.len() && b2
                                < 0));
                    }
                }
            }
            assert(now.edges =~= goal.edges);
        }
    }

    /// The first state that is neither a start state nor an accepting one;
    /// the number of states where there is none.
    pub fn first_inner_state(&self) -> (current: usize)
        requires
            self@.well_sized(),
        ensures
            current == self@.first_inner(0),
            current <= self.size,
    {
        let mut current: usize = START;
        while current < self.size && (self.start_states[current] || self.finite_states[current])
            invariant
                self@.well_sized(),
                current <= self.size,
                self@.first_inner(0) == self@.first_inner(current as int),
            decreases self.size - current,
        {
            current += 1;
        }
        current
    }

    /// The regular expression that state elimination yields, or `None`
    /// where it finds no path from the start state to an accepting state.
    pub fn to_regex(&self) -> (regex: Option<String>)
        requires
            self@.well_sized(),
            self.size < usize::MAX,
        ensures
            label_view(regex) == self@.regex(),
    {
        let mut automata = self.prepare_for_state_elimination();
        loop
            invariant
                automata@.well_sized(),
                automata@.starts[0],
                automata@.eliminated() == self@.regex(),
            decreases automata.size,
        {
            let current: usize = automata.first_inner_state();
            proof {
                lemma_first_inner(automata@, 0);
            }
            if current == automata.size {
                assert(automata@.edges[0].len() == automata.size);
                return copy_cell(&automata.transitions[START][automata.size - 1]);
            }
            automata.bypass_state(current);
            automata.eliminate_state(current);
        }
    }
}

} // verus!
