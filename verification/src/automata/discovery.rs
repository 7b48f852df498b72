//! The subset construction as a function of the automaton: which sets of
//! states are found, in which order, and which edges join them.
use vstd::prelude::*;

use crate::automata::model::{members, Machine};

verus! {

/// The moves that leave a set of states: the characters in the order in
/// which a scan finds them, and for each the flags of the states it leads
/// to.
pub struct MoveList {
    pub symbols: Seq<char>,
    pub targets: Seq<Seq<bool>>,
}

/// An edge of the automaton under construction.
pub struct Edge {
    pub from: int,
    pub symbol: char,
    pub to: int,
}

/// What the construction has found: the sets of states, one row of flags
/// each, in the order of their discovery; the edges, in the order in which
/// they were added; and for each set visited whether it accepts.
pub struct Discovery {
    pub rows: Seq<Seq<bool>>,
    pub edges: Seq<Edge>,
    pub finals: Seq<bool>,
}

/// A row of `len` flags of which only the one at `j` is set.
pub open spec fn singleton(len: nat, j: int) -> Seq<bool> {
    Seq::new(len, |b: int| b == j)
}

/// The first position at or after `from` at which `symbols` holds `c`.
pub open spec fn first_symbol(symbols: Seq<char>, c: char, from: int) -> Option<int>
    decreases symbols.len() - from,
{
    if from < 0 || from >= symbols.len() {
        None
    } else if symbols[from] == c {
        Some(from)
    } else {
        first_symbol(symbols, c, from + 1)
    }
}

/// The first position at or after `from` at which `rows` holds `row`.
pub open spec fn first_row(rows: Seq<Seq<bool>>, row: Seq<bool>, from: int) -> Option<int>
    decreases rows.len() - from,
{
    if from < 0 || from >= rows.len() {
        None
    } else if rows[from] == row {
        Some(from)
    } else {
        first_row(rows, row, from + 1)
    }
}

/// The label that the cell from `d1` to `d2` holds once the first `upto`
/// edges are written into the matrix in their order: that of the last edge
/// between the two.
pub open spec fn cell(edges: Seq<Edge>, d1: int, d2: int, upto: int) -> Option<Seq<char>>
    decreases upto,
{
    if upto <= 0 {
        None
    } else if edges[upto - 1].from == d1 && edges[upto - 1].to == d2 {
        Some(seq![edges[upto - 1].symbol])
    } else {
        cell(edges, d1, d2, upto - 1)
    }
}

impl Discovery {
    /// The discovery with the edge for one move of state `from`: to the
    /// state that stands for `target`, which is added as the last one where
    /// none stands for it yet.
    pub open spec fn linked(self, from: int, symbol: char, target: Seq<bool>) -> Discovery {
        match first_row(self.rows, target, 0) {
            Some(to) => Discovery { edges: self.edges.push(Edge { from, symbol, to }), ..self },
            None => Discovery {
                rows: self.rows.push(target),
                edges: self.edges.push(Edge { from, symbol, to: self.rows.len() as int }),
                ..self
            },
        }
    }

    /// The discovery with the edges for the first `upto` moves of state
    /// `from`.
    #[verifier::opaque]
    pub open spec fn linked_all(self, from: int, moves: MoveList, upto: int) -> Discovery
        decreases upto,
    {
        if upto <= 0 {
            self
        } else {
            self.linked_all(from, moves, upto - 1).linked(from, moves.symbols[upto - 1], moves.targets[upto - 1])
        }
    }

    /// The automaton that the discovery describes: one state per set, the
    /// first one the start state, and the edges written into the matrix in
    /// their order.
    pub open spec fn assembled(self) -> Machine {
        Machine {
            size: self.rows.len(),
            edges: Seq::new(
                self.rows.len(),
                |d1: int| Seq::new(self.rows.len(), |d2: int| cell(self.edges, d1, d2, self.edges.len() as int)),
            ),
            starts: Seq::new(self.rows.len(), |d: int| d == 0),
            finals: self.finals,
        }
    }
}

impl Machine {
    /// The moves after the cell `(i, j)` was looked at: where the row `i`
    /// is flagged in `from` and the cell holds a character, the state `j`
    /// joins the targets of that character, which becomes the last move
    /// where it has none yet.
    pub open spec fn noted(self, from: Seq<bool>, moves: MoveList, i: int, j: int) -> MoveList {
        if from[i] && self.edges[i][j] is Some && self.edges[i][j]->0.len() == 1 {
            let c = self.edges[i][j]->0[0];
            match first_symbol(moves.symbols, c, 0) {
                Some(t) => MoveList { targets: moves.targets.update(t, moves.targets[t].update(j, true)), ..moves },
                None => MoveList { symbols: moves.symbols.push(c), targets: moves.targets.push(singleton(self.size, j)) },
            }
        } else {
            moves
        }
    }

    /// The moves after the first `cols` cells of row `i` were looked at,
    /// starting from `start`.
    #[verifier::opaque]
    pub open spec fn moves_in_row(self, from: Seq<bool>, start: MoveList, i: int, cols: int) -> MoveList
        decreases cols,
    {
        if cols <= 0 {
            start
        } else {
            self.noted(from, self.moves_in_row(from, start, i, cols - 1), i, cols - 1)
        }
    }

    /// The moves after the first `rows` rows of the matrix were looked at.
    #[verifier::opaque]
    pub open spec fn moves_of_rows(self, from: Seq<bool>, rows: int) -> MoveList
        decreases rows,
    {
        if rows <= 0 {
            MoveList { symbols: Seq::empty(), targets: Seq::empty() }
        } else {
            self.moves_in_row(from, self.moves_of_rows(from, rows - 1), rows - 1, self.size as int)
        }
    }

    /// The moves that leave the states flagged in `from`, found by a scan
    /// of the matrix row by row.
    pub open spec fn moves_from(self, from: Seq<bool>) -> MoveList {
        self.moves_of_rows(from, self.size as int)
    }

    /// The flags of the epsilon closure of the states flagged in `row`.
    pub open spec fn closure_flags(self, row: Seq<bool>) -> Seq<bool> {
        Seq::new(self.size, |j: int| self.closure(members(row)).contains(j))
    }

    /// The discovery after the set numbered `next` was visited: whether it
    /// accepts is noted, and each of its moves gets its edge.
    #[verifier::opaque]
    pub open spec fn visited(self, found: Discovery, next: int) -> Discovery {
        let moves = self.moves_from(self.closure_flags(found.rows[next]));
        (Discovery { finals: found.finals.push(self.accepting(members(found.rows[next]))), ..found }).linked_all(
            next,
            moves,
            moves.symbols.len() as int,
        )
    }

    /// The discovery after `steps` sets were visited in the order of their
    /// numbers, starting from the start state alone; a step behind the last
    /// set changes nothing.
    #[verifier::opaque]
    pub open spec fn explored(self, steps: nat) -> Discovery
        decreases steps,
    {
        if steps == 0 {
            Discovery { rows: seq![singleton(self.size, 0)], edges: Seq::empty(), finals: Seq::empty() }
        } else {
            let found = self.explored((steps - 1) as nat);
            if steps - 1 < found.rows.len() {
                self.visited(found, steps - 1)
            } else {
                found
            }
        }
    }

    /// After `steps` steps every set that was found is visited.
    pub open spec fn complete_after(self, steps: nat) -> bool {
        self.explored(steps).rows.len() == steps
    }

    /// The deterministic form of the automaton: the subset construction run
    /// until every set that was found is visited. State zero stands for the
    /// start state alone, and the other sets are numbered in the order in
    /// which a breadth-first search finds them; from each set the characters
    /// are taken in the order in which a scan of the matrix row by row meets
    /// them on edges that leave the closure of the set. Where several
    /// characters lead from one set to the same set, the cell keeps the
    /// last of them.
    pub open spec fn determinized(self) -> Machine {
        self.explored(choose|steps: nat| self.complete_after(steps)).assembled()
    }
}

/// Before any row is looked at there is no move.
pub proof fn lemma_moves_begin(m: Machine, from: Seq<bool>)
    ensures
        m.moves_of_rows(from, 0) == (MoveList { symbols: Seq::empty(), targets: Seq::empty() }),
{
    reveal_with_fuel(Machine::moves_of_rows, 1);
}

/// Before any cell of a row is looked at the moves are as they were.
pub proof fn lemma_moves_row_begin(m: Machine, from: Seq<bool>, start: MoveList, i: int)
    ensures
        m.moves_in_row(from, start, i, 0) == start,
{
    reveal_with_fuel(Machine::moves_in_row, 1);
}

/// Looking at one more cell of a row notes that cell.
pub proof fn lemma_moves_cell(m: Machine, from: Seq<bool>, start: MoveList, i: int, j: int)
    requires
        0 <= j,
    ensures
        m.moves_in_row(from, start, i, j + 1) == m.noted(from, m.moves_in_row(from, start, i, j), i, j),
{
    reveal_with_fuel(Machine::moves_in_row, 2);
}

/// Looking at one more row looks at all of its cells.
pub proof fn lemma_moves_row_end(m: Machine, from: Seq<bool>, i: int)
    requires
        0 <= i,
    ensures
        m.moves_of_rows(from, i + 1) == m.moves_in_row(from, m.moves_of_rows(from, i), i, m.size as int),
{
    reveal_with_fuel(Machine::moves_of_rows, 2);
}

/// Linking no move changes nothing.
pub proof fn lemma_linked_none(base: Discovery, from: int, moves: MoveList)
    ensures
        base.linked_all(from, moves, 0) == base,
{
    reveal_with_fuel(Discovery::linked_all, 1);
}

/// The next move gets its edge behind the edges of the moves before it.
pub proof fn lemma_linked_next(base: Discovery, from: int, moves: MoveList, t: int)
    requires
        0 <= t,
    ensures
        base.linked_all(from, moves, t + 1) == base.linked_all(from, moves, t).linked(
            from,
            moves.symbols[t],
            moves.targets[t],
        ),
{
    reveal_with_fuel(Discovery::linked_all, 2);
}

/// Once every set is visited, further steps change nothing.
pub proof fn lemma_explored_stays(m: Machine, done: nat, later: nat)
    requires
        m.complete_after(done),
        done <= later,
    ensures
        m.explored(later) == m.explored(done),
    decreases later,
{
    reveal_with_fuel(Machine::explored, 2);
    if later > done {
        lemma_explored_stays(m, done, (later - 1) as nat);
    }
}

/// The construction starts from the start state alone.
pub proof fn lemma_explored_start(m: Machine)
    ensures
        m.explored(0) == (Discovery { rows: seq![singleton(m.size, 0)], edges: Seq::empty(), finals: Seq::empty() }),
{
    reveal_with_fuel(Machine::explored, 1);
}

/// A step at a set that was found is a visit of that set.
pub proof fn lemma_explored_next(m: Machine, next: nat)
    requires
        next < m.explored(next).rows.len(),
    ensures
        m.explored(next + 1) == m.visited(m.explored(next), next as int),
{
    reveal_with_fuel(Machine::explored, 2);
}

/// A visit notes whether the set accepts and links the moves that leave
/// its closure.
pub proof fn lemma_visit(m: Machine, found: Discovery, next: int, closure: Seq<bool>, accepting: bool, listed: MoveList)
    requires
        closure.len() == m.size,
        members(closure) == m.closure(members(found.rows[next])),
        accepting == m.accepting(members(found.rows[next])),
        listed == m.moves_from(closure),
    ensures
        m.visited(found, next) == (Discovery { finals: found.finals.push(accepting), ..found }).linked_all(
            next,
            listed,
            listed.symbols.len() as int,
        ),
{
    reveal(Machine::visited);
    assert forall|j: int| 0 <= j < m.size implies closure[j] == m.closure(members(found.rows[next])).contains(j) by {
        assert(members(closure).contains(j) == closure[j]);
    }
    assert(closure =~= m.closure_flags(found.rows[next]));
}

/// An automaton with one state per set found, the first one the start
/// state, whose cells hold what the edges leave in them and whose accepting
/// states are those noted, is the automaton that the discovery describes.
pub proof fn lemma_assembled(found: Discovery, out: Machine)
    requires
        out.well_sized(),
        out.single_start(),
        out.size == found.rows.len(),
        out.finals == found.finals,
        forall|d1: int, d2: int|
            0 <= d1 < out.size && 0 <= d2 < out.size ==> #[trigger] out.edges[d1][d2] == cell(
                found.edges,
                d1,
                d2,
                found.edges.len() as int,
            ),
    ensures
        out == found.assembled(),
{
    let goal = found.assembled();
    assert(out.edges.len() == goal.edges.len());
    assert forall|d1: int| 0 <= d1 < out.size implies #[trigger] out.edges[d1] =~= goal.edges[d1] by {
        assert(out.edges[d1].len() == out.size);
    }
    assert(out.edges =~= goal.edges);
    assert(out.starts =~= goal.starts);
}

/// The construction is complete after one number of steps only, so that
/// the deterministic form is the discovery at that number.
pub proof fn lemma_determinized(m: Machine, steps: nat)
    requires
        m.complete_after(steps),
    ensures
        m.determinized() == m.explored(steps).assembled(),
{
    let chosen = choose|k: nat| m.complete_after(k);
    if chosen <= steps {
        lemma_explored_stays(m, chosen, steps);
    } else {
        lemma_explored_stays(m, steps, chosen);
    }
}

} // verus!
