//! The subset construction.
use vstd::prelude::*;
use vstd::string::*;

use crate::automata::discovery::{
    cell, first_row, first_symbol, lemma_assembled, lemma_determinized, lemma_explored_next, lemma_explored_start,
    lemma_linked_next, lemma_linked_none, lemma_moves_begin, lemma_moves_cell, lemma_moves_row_begin,
    lemma_moves_row_end, lemma_visit, singleton, Discovery, Edge, MoveList,
};
use crate::automata::model::{members, Machine};
use crate::automata::subset::{
    determinizes, inhabited, lemma_distinct_rows_bound, lemma_reachable_start, lemma_reachable_step, reachable, reachable_sets,
    simulates, two_pow,
};
use crate::automata::{same_flags, unset_flags, AutomataImpl, START};

verus! {

/// The moves that leave one set of states: a character, the text of its
/// label, and the flags of the states it leads to, position by position.
struct Moves {
    symbols: Vec<char>,
    texts: Vec<String>,
    targets: Vec<Vec<bool>>,
}

/// An edge of the automaton under construction.
struct Transition {
    from: usize,
    symbol: char,
    text: String,
    to: usize,
}

/// The cell `(i, j)` comes before the cell `(rows, cols)` in a scan of the
/// matrix row by row.
spec fn scanned(i: int, j: int, rows: int, cols: int) -> bool {
    i < rows || (i == rows && j < cols)
}

/// Among the cells scanned so far, one in a row flagged in `from` holds an
/// edge to `j` that reads `c`.
spec fn enters(m: Machine, from: Seq<bool>, c: char, j: int, rows: int, cols: int) -> bool {
    exists|i: int| 0 <= i < m.size && from[i] && #[trigger] m.has_edge(i, c, j) && scanned(i, j, rows, cols)
}

/// At least one flag of the row is set.
spec fn some_set(flags: Seq<bool>) -> bool {
    exists|b: int| 0 <= b < flags.len() && flags[b]
}

/// The moves describe exactly the edges scanned so far.
spec fn moves_ok(m: Machine, from: Seq<bool>, moves: Moves, rows: int, cols: int) -> bool {
    &&& moves.symbols.len() == moves.texts.len()
    &&& moves.symbols.len() == moves.targets.len()
    &&& forall|t: int|
        0 <= t < moves.symbols.len() ==> (#[trigger] moves.texts[t])@ == seq![moves.symbols[t]]
    &&& forall|t: int| 0 <= t < moves.symbols.len() ==> (#[trigger] moves.targets[t]).len() == m.size
    &&& forall|t1: int, t2: int|
        0 <= t1 < moves.symbols.len() && 0 <= t2 < moves.symbols.len() && t1 != t2 ==> moves.symbols[t1]
            != moves.symbols[t2]
    &&& forall|t: int, b: int|
        0 <= t < moves.symbols.len() && 0 <= b < m.size ==> (#[trigger] moves.targets[t][b] <==> enters(
            m,
            from,
            moves.symbols[t],
            b,
            rows,
            cols,
        ))
    &&& forall|t: int| 0 <= t < moves.symbols.len() ==> some_set((#[trigger] moves.targets[t])@)
    &&& forall|i: int, c: char, b: int|
        0 <= i < m.size && from[i] && #[trigger] m.has_edge(i, c, b) && scanned(i, b, rows, cols) ==> exists|
            t: int,
        | 0 <= t < moves.symbols.len() && #[trigger] moves.symbols[t] == c
}

/// The rows of flags that a vector of vectors holds.
spec fn rows_of(subsets: Vec<Vec<bool>>) -> Seq<Seq<bool>> {
    Seq::new(subsets.len() as nat, |d: int| subsets[d]@)
}

/// The moves as a value of mathematics.
spec fn moves_list(moves: Moves) -> MoveList {
    MoveList { symbols: moves.symbols@, targets: rows_of(moves.targets) }
}

/// The edges as values of mathematics.
spec fn edges_list(edges: Seq<Transition>) -> Seq<Edge> {
    Seq::new(edges.len(), |e: int| Edge { from: edges[e].from as int, symbol: edges[e].symbol, to: edges[e].to as int })
}

/// What the construction has found, as a value of mathematics.
spec fn discovery_of(subsets: Vec<Vec<bool>>, edges: Seq<Transition>, finals: Seq<bool>) -> Discovery {
    Discovery { rows: rows_of(subsets), edges: edges_list(edges), finals }
}

/// The rows, edges and flags are those of `found`.
#[verifier::opaque]
spec fn tracks(subsets: Vec<Vec<bool>>, edges: Seq<Transition>, finals: Seq<bool>, found: Discovery) -> bool {
    discovery_of(subsets, edges, finals) == found
}

/// What tracking says of the parts.
proof fn lemma_tracks_parts(subsets: Vec<Vec<bool>>, edges: Seq<Transition>, finals: Seq<bool>, found: Discovery)
    requires
        tracks(subsets, edges, finals, found),
    ensures
        found.rows.len() == subsets.len(),
        found.edges == edges_list(edges),
        found.finals == finals,
        found.rows == rows_of(subsets),
{
    reveal(tracks);
}

/// What tracking says of one row.
proof fn lemma_tracks_row(subsets: Vec<Vec<bool>>, edges: Seq<Transition>, finals: Seq<bool>, found: Discovery, d: int)
    requires
        tracks(subsets, edges, finals, found),
        0 <= d < subsets.len(),
    ensures
        found.rows.len() == subsets.len(),
        found.rows[d] == subsets[d]@,
{
    reveal(tracks);
}

/// Tracking goes on when a flag is noted.
proof fn lemma_tracks_final(
    subsets: Vec<Vec<bool>>,
    edges: Seq<Transition>,
    finals: Seq<bool>,
    found: Discovery,
    accepting: bool,
)
    requires
        tracks(subsets, edges, finals, found),
    ensures
        tracks(subsets, edges, finals.push(accepting), (Discovery { finals: found.finals.push(accepting), ..found })),
{
    reveal(tracks);
}

/// The construction starts from the start state alone.
proof fn lemma_tracks_start(nfa: Machine, subsets: Vec<Vec<bool>>, edges: Seq<Transition>, finals: Seq<bool>)
    requires
        subsets.len() == 1,
        subsets[0]@ == singleton(nfa.size, 0),
        edges.len() == 0,
        finals.len() == 0,
    ensures
        tracks(subsets, edges, finals, nfa.explored(0)),
{
    reveal(tracks);
    lemma_explored_start(nfa);
    assert(rows_of(subsets) =~= seq![singleton(nfa.size, 0)]);
    assert(edges_list(edges) =~= Seq::<Edge>::empty());
    assert(finals =~= Seq::<bool>::empty());
}

/// The sets of states that the rows stand for.
spec fn sets_of(rows: Seq<Seq<bool>>) -> Seq<Set<int>> {
    Seq::new(rows.len(), |d: int| members(rows[d]))
}

/// The rows are distinct, inhabited and reachable subsets, the first one
/// the start state alone.
spec fn rows_ok(nfa: Machine, rows: Seq<Seq<bool>>) -> bool {
    &&& rows.len() >= 1
    &&& forall|d: int| 0 <= d < rows.len() ==> (#[trigger] rows[d]).len() == nfa.size
    &&& members(rows[0]) == set![0int]
    &&& forall|d: int| 0 <= d < rows.len() ==> inhabited(members(#[trigger] rows[d]))
    &&& forall|d: int| 0 <= d < rows.len() ==> reachable(nfa, members(#[trigger] rows[d]))
    &&& forall|d1: int, d2: int|
        0 <= d1 < rows.len() && 0 <= d2 < rows.len() && d1 != d2 ==> #[trigger] rows[d1] != #[trigger] rows[d2]
}

/// Every edge leaves a state up to `last`, and leads where its character
/// leads the set of its source.
spec fn edges_ok(nfa: Machine, rows: Seq<Seq<bool>>, edges: Seq<Transition>, last: int) -> bool {
    forall|e: int|
        0 <= e < edges.len() ==> {
            &&& (#[trigger] edges[e]).from <= last
            &&& edges[e].from < rows.len()
            &&& edges[e].to < rows.len()
            &&& edges[e].text@ == seq![edges[e].symbol]
            &&& nfa.delta(members(rows[edges[e].from as int]), edges[e].symbol) == members(rows[edges[e].to as int])
        }
}

/// Every character that leads the set of state `d` somewhere has its edge.
spec fn state_done(nfa: Machine, rows: Seq<Seq<bool>>, edges: Seq<Transition>, d: int) -> bool {
    forall|c: char|
        inhabited(#[trigger] nfa.delta(members(rows[d]), c)) ==> exists|e: int|
            0 <= e < edges.len() && (#[trigger] edges[e]).from == d && edges[e].symbol == c
}

/// A cell is empty or holds the label of one of the first `upto` edges from
/// `d1` to `d2`.
spec fn cell_from_edges(cell: Option<Seq<char>>, d1: int, d2: int, edges: Seq<Transition>, upto: int) -> bool {
    match cell {
        Some(label) => exists|e: int|
            0 <= e < upto && (#[trigger] edges[e]).from == d1 && edges[e].to == d2 && label == seq![edges[e].symbol],
        None => true,
    }
}

/// What held of a state keeps holding when rows and edges are added.
proof fn lemma_growth_keeps_done(
    nfa: Machine,
    rows: Seq<Seq<bool>>,
    more_rows: Seq<Seq<bool>>,
    edges: Seq<Transition>,
    more_edges: Seq<Transition>,
    d: int,
)
    requires
        0 <= d < rows.len(),
        rows.len() <= more_rows.len(),
        more_rows[d] == rows[d],
        edges.len() <= more_edges.len(),
        forall|e: int| 0 <= e < edges.len() ==> more_edges[e] == edges[e],
        state_done(nfa, rows, edges, d),
    ensures
        state_done(nfa, more_rows, more_edges, d),
{
    assert forall|c: char| inhabited(#[trigger] nfa.delta(members(more_rows[d]), c)) implies exists|e: int|
        0 <= e < more_edges.len() && (#[trigger] more_edges[e]).from == d && more_edges[e].symbol == c by {
        let e = choose|e: int| 0 <= e < edges.len() && (#[trigger] edges[e]).from == d && edges[e].symbol == c;
        assert(more_edges[e].from == d && more_edges[e].symbol == c);
    }
}

/// Two rows of flags of one length that stand for the same set are equal.
proof fn lemma_members_injective(a: Seq<bool>, b: Seq<bool>)
    requires
        a.len() == b.len(),
        members(a) == members(b),
    ensures
        a == b,
{
    assert forall|i: int| 0 <= i < a.len() implies a[i] == b[i] by {
        assert(members(a).contains(i) == a[i]);
        assert(members(b).contains(i) == b[i]);
    }
    assert(a =~= b);
}

/// Once the whole matrix is scanned, the flags of a move are the set that
/// its character leads to.
proof fn lemma_target_is_delta(m: Machine, states: Set<int>, from: Seq<bool>, c: char, target: Seq<bool>)
    requires
        m.well_sized(),
        from.len() == m.size,
        target.len() == m.size,
        members(from) == m.closure(states),
        forall|b: int| 0 <= b < m.size ==> (#[trigger] target[b] <==> enters(m, from, c, b, m.size as int, 0)),
    ensures
        members(target) == m.delta(states, c),
{
    assert forall|b: int| members(target).contains(b) <==> m.delta(states, c).contains(b) by {
        if members(target).contains(b) {
            let i = choose|i: int|
                0 <= i < m.size && from[i] && #[trigger] m.has_edge(i, c, b) && scanned(i, b, m.size as int, 0);
            assert(members(from).contains(i));
        }
        if m.delta(states, c).contains(b) {
            let i = choose|i: int| m.closure(states).contains(i) && m.has_edge(i, c, b);
            assert(members(from).contains(i));
            assert(scanned(i, b, m.size as int, 0));
        }
    }
    assert(members(target) =~= m.delta(states, c));
}

/// A copy of a row of flags.
fn copy_flags(flags: &Vec<bool>) -> (copy: Vec<bool>)
    ensures
        copy@ == flags@,
{
    let mut copy: Vec<bool> = Vec::new();
    let mut i: usize = 0;
    while i < flags.len()
        invariant
            i <= flags.len(),
            copy.len() == i,
            forall|k: int| 0 <= k < i ==> copy[k] == flags[k],
        decreases flags.len() - i,
    {
        copy.push(flags[i]);
        i += 1;
    }
    assert(copy@ =~= flags@);
    copy
}

/// A row of `len` flags of which only the one at `j` is set.
fn singleton_flags(len: usize, j: usize) -> (flags: Vec<bool>)
    requires
        j < len,
    ensures
        flags.len() == len,
        forall|b: int| 0 <= b < len ==> (flags[b] <==> b == j),
{
    let mut flags = unset_flags(len);
    flags[j] = true;
    flags
}

/// The position of the row equal to `target`, if there is one.
fn find_subset(subsets: &Vec<Vec<bool>>, target: &Vec<bool>) -> (found: Option<usize>)
    ensures
        match found {
            Some(k) => k < subsets.len() && subsets[k as int]@ == target@,
            None => forall|k: int| 0 <= k < subsets.len() ==> (#[trigger] subsets[k])@ != target@,
        },
        match found {
            Some(k) => first_row(rows_of(*subsets), target@, 0) == Some(k as int),
            None => first_row(rows_of(*subsets), target@, 0) is None,
        },
{
    let mut k: usize = 0;
    while k < subsets.len()
        invariant
            k <= subsets.len(),
            forall|a: int| 0 <= a < k ==> (#[trigger] subsets[a])@ != target@,
            first_row(rows_of(*subsets), target@, 0) == first_row(rows_of(*subsets), target@, k as int),
        decreases subsets.len() - k,
    {
        assert(rows_of(*subsets)[k as int] == subsets[k as int]@);
        if same_flags(&subsets[k], target) {
            return Some(k);
        }
        k += 1;
    }
    None
}

/// The position of the move that reads `c`, if there is one.
fn find_move(symbols: &Vec<char>, c: char) -> (found: Option<usize>)
    ensures
        match found {
            Some(t) => t < symbols.len() && symbols[t as int] == c,
            None => forall|t: int| 0 <= t < symbols.len() ==> symbols[t] != c,
        },
        match found {
            Some(t) => first_symbol(symbols@, c, 0) == Some(t as int),
            None => first_symbol(symbols@, c, 0) is None,
        },
{
    let mut t: usize = 0;
    while t < symbols.len()
        invariant
            t <= symbols.len(),
            forall|a: int| 0 <= a < t ==> symbols[a] != c,
            first_symbol(symbols@, c, 0) == first_symbol(symbols@, c, t as int),
        decreases symbols.len() - t,
    {
        if symbols[t] == c {
            return Some(t);
        }
        t += 1;
    }
    None
}

impl AutomataImpl {
    /// Whether one of the flagged states is accepting.
    fn holds_accepting(&self, flags: &Vec<bool>) -> (found: bool)
        requires
            self@.well_sized(),
            flags.len() == self.size,
        ensures
            found == exists|q: int| members(flags@).contains(q) && 0 <= q < self@.finals.len() && self@.finals[q],
    {
        let mut q: usize = 0;
        while q < self.size
            invariant
                self@.well_sized(),
                flags.len() == self.size,
                q <= self.size,
                forall|a: int| 0 <= a < q ==> !(flags[a] && self@.finals[a]),
            decreases self.size - q,
        {
            if flags[q] && self.finite_states[q] {
                assert(members(flags@).contains(q as int));
                return true;
            }
            q += 1;
        }
        false
    }

    /// Records the edge in cell `(i, j)`, if it reads a character, among the
    /// moves.
    fn note_cell(&self, from: &Vec<bool>, moves: &mut Moves, i: usize, j: usize)
        requires
            self@.wf(),
            from.len() == self.size,
            i < self.size,
            j < self.size,
            moves_ok(self@, from@, *old(moves), i as int, j as int),
        ensures
            moves_ok(self@, from@, *final(moves), i as int, j + 1),
            moves_list(*final(moves)) == self@.noted(from@, moves_list(*old(moves)), i as int, j as int),
    {
        let ghost m = self@;
        let ghost before = *moves;
        let ghost listed = moves_list(before);
        assert(m.edges[i as int].len() == m.size);
        assert(m.edges[i as int][j as int] == crate::automata::label_view(self.transitions[i as int][j as int]));
        let mut noted: Option<char> = None;
        if from[i] {
            match &self.transitions[i][j] {
                Some(label) => {
                    if label.as_str().unicode_len() == 1 {
                        let c: char = label.as_str().get_char(0);
                        assert(label@ =~= seq![c]);
                        assert(m.has_edge(i as int, c, j as int));
                        match find_move(&moves.symbols, c) {
                            Some(t) => {
                                assert(listed.targets[t as int] == before.targets[t as int]@);
                                moves.targets[t][j] = true;
                                assert(rows_of(moves.targets) =~= listed.targets.update(
                                    t as int,
                                    listed.targets[t as int].update(j as int, true),
                                ));
                            },
                            None => {
                                moves.symbols.push(c);
                                moves.texts.push(label.clone());
                                let flags = singleton_flags(self.size, j);
                                assert(flags@ =~= singleton(m.size, j as int));
                                moves.targets.push(flags);
                                assert(rows_of(moves.targets) =~= listed.targets.push(singleton(m.size, j as int)));
                            },
                        }
                        noted = Some(c);
                    }
                },
                None => {},
            }
        }
        assert(moves_list(*moves) == m.noted(from@, listed, i as int, j as int));
        proof {
            let after = *moves;
            assert forall|c: char, b: int| 0 <= b < m.size implies (enters(m, from@, c, b, i as int, j + 1) <==> enters(
                m,
                from@,
                c,
                b,
                i as int,
                j as int,
            ) || (noted == Some(c) && b == j)) by {
                if enters(m, from@, c, b, i as int, j + 1) {
                    let a = choose|a: int|
                        0 <= a < m.size && from@[a] && #[trigger] m.has_edge(a, c, b) && scanned(a, b, i as int, j + 1);
                    if a == i && b == j {
                        assert(m.edges[i as int][j as int] == Some(seq![c]));
                        assert(seq![c][0] == c);
                    } else {
                        assert(scanned(a, b, i as int, j as int));
                    }
                }
                if enters(m, from@, c, b, i as int, j as int) {
                    let a = choose|a: int|
                        0 <= a < m.size && from@[a] && #[trigger] m.has_edge(a, c, b) && scanned(
                            a,
                            b,
                            i as int,
                            j as int,
                        );
                    assert(scanned(a, b, i as int, j + 1));
                }
                if noted == Some(c) && b == j {
                    assert(m.has_edge(i as int, c, j as int) && scanned(i as int, j as int, i as int, j + 1));
                }
            }
            match noted {
                Some(c) => {
                    if after.symbols.len() == before.symbols.len() {
                        let t = choose|t: int| 0 <= t < before.symbols.len() && before.symbols[t] == c;
                        assert(after.targets[t][j as int]);
                    } else {
                        let t = before.symbols.len() as int;
                        assert(after.symbols[t] == c);
                        assert(after.targets[t][j as int]);
                        assert forall|b: int| 0 <= b < m.size implies !enters(m, from@, c, b, i as int, j as int) by {
                            if enters(m, from@, c, b, i as int, j as int) {
                                let a = choose|a: int|
                                    0 <= a < m.size && from@[a] && #[trigger] m.has_edge(a, c, b) && scanned(
                                        a,
                                        b,
                                        i as int,
                                        j as int,
                                    );
                                let t0 = choose|t0: int|
                                    0 <= t0 < before.symbols.len() && #[trigger] before.symbols[t0] == c;
                                assert(false);
                            }
                        }
                    }
                    assert forall|t: int| 0 <= t < after.symbols.len() implies some_set(
                        (#[trigger] after.targets[t])@,
                    ) by {
                        if t < before.symbols.len() {
                            assert(some_set(before.targets[t]@));
                            let b = choose|b: int| 0 <= b < before.targets[t]@.len() && before.targets[t]@[b];
                            assert(after.targets[t]@[b]);
                        } else {
                            assert(after.targets[t]@[j as int]);
                        }
                    }
                    assert forall|a: int, c2: char, b: int|
                        0 <= a < m.size && from@[a] && #[trigger] m.has_edge(a, c2, b) && scanned(
                            a,
                            b,
                            i as int,
                            j + 1,
                        ) implies exists|t: int| 0 <= t < after.symbols.len() && #[trigger] after.symbols[t] == c2 by {
                        if a == i && b == j {
                            assert(m.edges[i as int][j as int] == Some(seq![c2]));
                            assert(seq![c2][0] == c2);
                            assert(seq![c][0] == c);
                            assert(c2 == c);
                            if after.symbols.len() == before.symbols.len() {
                                let t = choose|t: int| 0 <= t < before.symbols.len() && before.symbols[t] == c;
                                assert(after.symbols[t] == c2);
                            } else {
                                assert(after.symbols[before.symbols.len() as int] == c2);
                            }
                        } else {
                            assert(scanned(a, b, i as int, j as int));
                            let t = choose|t: int| 0 <= t < before.symbols.len() && #[trigger] before.symbols[t] == c2;
                            assert(after.symbols[t] == c2);
                        }
                    }
                },
                None => {
                    assert(after == before);
                    assert forall|a: int, c2: char, b: int|
                        0 <= a < m.size && from@[a] && #[trigger] m.has_edge(a, c2, b) && scanned(
                            a,
                            b,
                            i as int,
                            j + 1,
                        ) implies exists|t: int| 0 <= t < after.symbols.len() && #[trigger] after.symbols[t] == c2 by {
                        if a == i && b == j {
                            assert(m.edges[i as int][j as int] == Some(seq![c2]));
                            assert(seq![c2].len() == 1);
                            assert(false);
                        } else {
                            assert(scanned(a, b, i as int, j as int));
                        }
                    }
                },
            }
        }
    }

    /// The moves that leave the flagged states: for each character on one
    /// of their edges, the set of the states that such edges lead to.
    fn collect_moves(&self, from: &Vec<bool>) -> (moves: Moves)
        requires
            self@.wf(),
            from.len() == self.size,
        ensures
            moves_ok(self@, from@, moves, self.size as int, 0),
            moves_list(moves) == self@.moves_from(from@),
    {
        let n: usize = self.size;
        let mut moves = Moves { symbols: Vec::new(), texts: Vec::new(), targets: Vec::new() };
        let mut i: usize = 0;
        proof {
            lemma_moves_begin(self@, from@);
            assert(moves_list(moves).targets =~= Seq::<Seq<bool>>::empty());
        }
        while i < n
            invariant
                n == self.size,
                self@.wf(),
                from.len() == n,
                i <= n,
                moves_ok(self@, from@, moves, i as int, 0),
                moves_list(moves) == self@.moves_of_rows(from@, i as int),
            decreases n - i,
        {
            let mut j: usize = 0;
            proof {
                lemma_moves_row_begin(self@, from@, self@.moves_of_rows(from@, i as int), i as int);
            }
            while j < n
                invariant
                    n == self.size,
                    self@.wf(),
                    from.len() == n,
                    i < n,
                    j <= n,
                    moves_ok(self@, from@, moves, i as int, j as int),
                    moves_list(moves) == self@.moves_in_row(
                        from@,
                        self@.moves_of_rows(from@, i as int),
                        i as int,
                        j as int,
                    ),
                decreases n - j,
            {
                proof {
                    lemma_moves_cell(self@, from@, self@.moves_of_rows(from@, i as int), i as int, j as int);
                }
                self.note_cell(from, &mut moves, i, j);
                j += 1;
            }
            proof {
                lemma_moves_row_end(self@, from@, i as int);
            }
            proof {
                let m = self@;
                assert forall|a: int, b: int| 0 <= b < m.size implies (scanned(a, b, i as int, n as int) <==> scanned(
                    a,
                    b,
                    i + 1,
                    0,
                )) by {}
                assert forall|c: char, b: int| 0 <= b < m.size implies (enters(m, from@, c, b, i as int, n as int)
                    <==> enters(m, from@, c, b, i + 1, 0)) by {
                    if enters(m, from@, c, b, i as int, n as int) {
                        let a = choose|a: int|
                            0 <= a < m.size && from@[a] && #[trigger] m.has_edge(a, c, b) && scanned(
                                a,
                                b,
                                i as int,
                                n as int,
                            );
                        assert(scanned(a, b, i + 1, 0));
                    }
                    if enters(m, from@, c, b, i + 1, 0) {
                        let a = choose|a: int|
                            0 <= a < m.size && from@[a] && #[trigger] m.has_edge(a, c, b) && scanned(a, b, i + 1, 0);
                        assert(scanned(a, b, i as int, n as int));
                    }
                }
                assert forall|a: int, c: char, b: int|
                    0 <= a < m.size && from@[a] && #[trigger] m.has_edge(a, c, b) && scanned(
                        a,
                        b,
                        i + 1,
                        0,
                    ) implies exists|t: int| 0 <= t < moves.symbols.len() && #[trigger] moves.symbols[t] == c by {
                    assert(scanned(a, b, i as int, n as int));
                }
            }
            i += 1;
        }
        moves
    }

    /// Adds the edge for one move of state `from`: to the state that stands
    /// for `target`, which is added first where no state stands for it yet.
    fn link_move(
        &self,
        subsets: &mut Vec<Vec<bool>>,
        edges: &mut Vec<Transition>,
        from: usize,
        symbol: char,
        text: String,
        target: &Vec<bool>,
        Ghost(finals): Ghost<Seq<bool>>,
        Ghost(found): Ghost<Discovery>,
    )
        requires
            tracks(*old(subsets), old(edges)@, finals, found),
            self@.wf(),
            from < old(subsets).len(),
            rows_ok(self@, rows_of(*old(subsets))),
            edges_ok(self@, rows_of(*old(subsets)), old(edges)@, from as int),
            target.len() == self.size,
            text@ == seq![symbol],
            inhabited(members(target@)),
            members(target@) == self@.delta(members(rows_of(*old(subsets))[from as int]), symbol),
        ensures
            rows_ok(self@, rows_of(*final(subsets))),
            final(subsets).len() <= two_pow(self.size as nat),
            old(subsets).len() <= final(subsets).len(),
            forall|d: int| 0 <= d < old(subsets).len() ==> #[trigger] rows_of(*final(subsets))[d] == rows_of(*old(subsets))[d],
            final(edges).len() == old(edges).len() + 1,
            forall|e: int| 0 <= e < old(edges).len() ==> #[trigger] final(edges)[e] == old(edges)[e],
            final(edges)[old(edges).len() as int].from == from,
            final(edges)[old(edges).len() as int].symbol == symbol,
            edges_ok(self@, rows_of(*final(subsets)), final(edges)@, from as int),
            tracks(*final(subsets), final(edges)@, finals, found.linked(from as int, symbol, target@)),
    {
        let ghost nfa = self@;
        let ghost rows = rows_of(*subsets);
        let ghost old_edges = edges@;
        let to: usize = match find_subset(subsets, target) {
            Some(k) => k,
            None => {
                subsets.push(copy_flags(target));
                subsets.len() - 1
            },
        };
        let ghost more_rows = rows_of(*subsets);
        proof {
            assert forall|d: int| 0 <= d < rows.len() implies #[trigger] more_rows[d] == rows[d] by {}
            assert(more_rows[to as int] == target@);
            assert(rows_ok(nfa, more_rows)) by {
                assert(more_rows[0] == rows[0]);
                assert forall|d: int| 0 <= d < more_rows.len() implies inhabited(members(#[trigger] more_rows[d])) by {
                    if d < rows.len() {
                        assert(more_rows[d] == rows[d]);
                    }
                }
                assert forall|d: int| 0 <= d < more_rows.len() implies reachable(nfa, members(#[trigger] more_rows[d])) by {
                    if d < rows.len() {
                        assert(more_rows[d] == rows[d]);
                    } else {
                        assert(reachable(nfa, members(rows[from as int])));
                        lemma_reachable_step(nfa, members(rows[from as int]), symbol);
                    }
                }
                assert forall|d1: int, d2: int|
                    0 <= d1 < more_rows.len() && 0 <= d2 < more_rows.len() && d1 != d2 implies #[trigger] more_rows[d1]
                        != #[trigger] more_rows[d2] by {
                    if d1 < rows.len() {
                        assert(more_rows[d1] == rows[d1]);
                    }
                    if d2 < rows.len() {
                        assert(more_rows[d2] == rows[d2]);
                    }
                }
            }
            lemma_distinct_rows_bound(more_rows, self.size as nat);
        }
        edges.push(Transition { from, symbol, text, to });
        proof {
            assert(edges_list(edges@) =~= edges_list(old_edges).push(Edge { from: from as int, symbol, to: to as int }));
            assert(more_rows =~= if first_row(rows, target@, 0) is Some {
                rows
            } else {
                rows.push(target@)
            });
            reveal(tracks);
            assert(discovery_of(*subsets, edges@, finals) == discovery_of(*old(subsets), old_edges, finals).linked(
                from as int,
                symbol,
                target@,
            ));
        }
        proof {
            let more_edges = edges@;
            assert forall|e: int| 0 <= e < more_edges.len() implies {
                &&& (#[trigger] more_edges[e]).from <= from
                &&& more_edges[e].from < more_rows.len()
                &&& more_edges[e].to < more_rows.len()
                &&& more_edges[e].text@ == seq![more_edges[e].symbol]
                &&& nfa.delta(members(more_rows[more_edges[e].from as int]), more_edges[e].symbol) == members(
                    more_rows[more_edges[e].to as int],
                )
            } by {
                if e < old_edges.len() {
                    assert(more_edges[e] == old_edges[e]);
                    assert(more_rows[old_edges[e].from as int] == rows[old_edges[e].from as int]);
                    assert(more_rows[old_edges[e].to as int] == rows[old_edges[e].to as int]);
                } else {
                    assert(more_rows[from as int] == rows[from as int]);
                }
            }
        }
    }

    /// The subset construction. Each state of the result stands for a set of
    /// states of `self`, in the order in which a breadth-first search from
    /// the start state alone finds the sets; closures are taken when a set is
    /// visited. Where several characters lead from one set to the same
    /// target, the cell between the two keeps one of their labels.
    pub fn determinize(&self) -> (dfa: AutomataImpl)
        requires
            self@.wf(),
        ensures
            dfa@ == self@.determinized(),
            determinizes(self@, dfa@),
    {
        let n: usize = self.size;
        let ghost nfa = self@;
        let mut subsets: Vec<Vec<bool>> = Vec::new();
        subsets.push(singleton_flags(n, START));
        let mut finals: Vec<bool> = Vec::new();
        let mut edges: Vec<Transition> = Vec::new();
        let mut next: usize = 0;
        proof {
            let rows = rows_of(subsets);
            assert(members(rows[0]) =~= set![0int]);
            assert(members(rows[0]).contains(0));
            lemma_reachable_start(nfa);
            lemma_distinct_rows_bound(rows, n as nat);
            assert(subsets[0]@ =~= singleton(n as nat, 0));
            lemma_tracks_start(nfa, subsets, edges@, finals@);
        }
        while next < subsets.len()
            invariant
                n == self.size,
                nfa == self@,
                nfa.wf(),
                next <= subsets.len(),
                finals.len() == next,
                tracks(subsets, edges@, finals@, nfa.explored(next as nat)),
                rows_ok(nfa, rows_of(subsets)),
                subsets.len() <= two_pow(n as nat),
                edges_ok(nfa, rows_of(subsets), edges@, next - 1),
                forall|d: int| 0 <= d < next ==> #[trigger] finals[d] == nfa.accepting(members(rows_of(subsets)[d])),
                forall|d: int| 0 <= d < next ==> state_done(nfa, rows_of(subsets), edges@, d),
            decreases two_pow(n as nat) - next,
        {
            let ghost source = members(rows_of(subsets)[next as int]);
            assert(rows_of(subsets)[next as int].len() == n);
            let ghost found = nfa.explored(next as nat);
            let closure = self.get_epsilon_closure(&subsets[next]);
            let accepting: bool = self.holds_accepting(&closure);
            assert(accepting == nfa.accepting(source));
            proof {
                lemma_tracks_row(subsets, edges@, finals@, found, next as int);
                lemma_tracks_final(subsets, edges@, finals@, found, accepting);
            }
            finals.push(accepting);
            let moves = self.collect_moves(&closure);
            let ghost listed = moves_list(moves);
            let ghost base = Discovery { finals: found.finals.push(accepting), ..found };
            proof {
                assert(found.rows[next as int] == rows_of(subsets)[next as int]);
                lemma_visit(nfa, found, next as int, closure@, accepting, listed);
                lemma_linked_none(base, next as int, listed);
            }
            let mut t: usize = 0;
            while t < moves.symbols.len()
                invariant
                    n == self.size,
                    nfa == self@,
                    nfa.wf(),
                    next < subsets.len(),
                    finals.len() == next + 1,
                    listed == moves_list(moves),
                    tracks(subsets, edges@, finals@, base.linked_all(next as int, listed, t as int)),
                    closure.len() == n,
                    t <= moves.symbols.len(),
                    moves_ok(nfa, closure@, moves, n as int, 0),
                    source == members(rows_of(subsets)[next as int]),
                    members(closure@) == nfa.closure(source),
                    rows_ok(nfa, rows_of(subsets)),
                    subsets.len() <= two_pow(n as nat),
                    edges_ok(nfa, rows_of(subsets), edges@, next as int),
                    forall|d: int|
                        0 <= d <= next ==> #[trigger] finals[d] == nfa.accepting(members(rows_of(subsets)[d])),
                    forall|d: int| 0 <= d < next ==> state_done(nfa, rows_of(subsets), edges@, d),
                    forall|a: int|
                        0 <= a < t ==> exists|e: int|
                            0 <= e < edges.len() && (#[trigger] edges[e]).from == next && edges[e].symbol
                                == #[trigger] moves.symbols[a],
                decreases moves.symbols.len() - t,
            {
                let ghost rows = rows_of(subsets);
                let ghost old_edges = edges@;
                let symbol: char = moves.symbols[t];
                assert(moves.targets[t as int].len() == n);
                proof {
                    lemma_target_is_delta(nfa, source, closure@, symbol, moves.targets[t as int]@);
                    assert(some_set(moves.targets[t as int]@));
                    let b = choose|b: int| 0 <= b < moves.targets[t as int]@.len() && moves.targets[t as int]@[b];
                    assert(members(moves.targets[t as int]@).contains(b));
                }
                self.link_move(
                    &mut subsets,
                    &mut edges,
                    next,
                    symbol,
                    moves.texts[t].clone(),
                    &moves.targets[t],
                    Ghost(finals@),
                    Ghost(base.linked_all(next as int, listed, t as int)),
                );
                proof {
                    assert(listed.symbols[t as int] == symbol);
                    assert(listed.targets[t as int] == moves.targets[t as int]@);
                    lemma_linked_next(base, next as int, listed, t as int);
                }
                proof {
                    let more_rows = rows_of(subsets);
                    let more_edges = edges@;
                    assert forall|d: int| 0 <= d < next implies state_done(nfa, more_rows, more_edges, d) by {
                        lemma_growth_keeps_done(nfa, rows, more_rows, old_edges, more_edges, d);
                    }
                    assert forall|d: int| 0 <= d <= next implies #[trigger] finals[d] == nfa.accepting(
                        members(more_rows[d]),
                    ) by {
                        assert(more_rows[d] == rows[d]);
                    }
                    assert forall|a: int| 0 <= a < t + 1 implies exists|e: int|
                        0 <= e < more_edges.len() && (#[trigger] more_edges[e]).from == next && more_edges[e].symbol
                            == #[trigger] moves.symbols[a] by {
                        if a < t {
                            let e = choose|e: int|
                                0 <= e < old_edges.len() && (#[trigger] old_edges[e]).from == next
                                    && old_edges[e].symbol == moves.symbols[a];
                            assert(more_edges[e] == old_edges[e]);
                        } else {
                            assert(more_edges[old_edges.len() as int].symbol == moves.symbols[a]);
                        }
                    }
                }
                t += 1;
            }
            proof {
                let rows = rows_of(subsets);
                assert forall|c: char| inhabited(#[trigger] nfa.delta(members(rows[next as int]), c)) implies exists|
                    e: int,
                | 0 <= e < edges.len() && (#[trigger] edges[e]).from == next && edges[e].symbol == c by {
                    let j = choose|j: int| nfa.delta(source, c).contains(j);
                    let i = choose|i: int| nfa.closure(source).contains(i) && nfa.has_edge(i, c, j);
                    assert(members(closure@).contains(i));
                    assert(scanned(i, j, n as int, 0));
                    let a = choose|a: int| 0 <= a < moves.symbols.len() && #[trigger] moves.symbols[a] == c;
                }
                assert(state_done(nfa, rows, edges@, next as int));
            }
            proof {
                lemma_explored_next(nfa, next as nat);
            }
            next += 1;
        }
        let count: usize = subsets.len();
        let ghost listed_edges = edges_list(edges@);
        let ghost noted_finals = finals@;
        proof {
            lemma_tracks_parts(subsets, edges@, finals@, nfa.explored(count as nat));
            assert(nfa.complete_after(count as nat));
            lemma_determinized(nfa, count as nat);
        }
        let ghost rows = rows_of(subsets);
        let ghost subs = sets_of(rows);
        let mut dfa = AutomataImpl::new(count);
        let mut e: usize = 0;
        while e < edges.len()
            invariant
                count == rows.len(),
                count >= 1,
                e <= edges.len(),
                edges_ok(nfa, rows, edges@, count as int),
                dfa@.wf(),
                dfa@.size == count,
                listed_edges == edges_list(edges@),
                forall|d1: int, d2: int|
                    0 <= d1 < count && 0 <= d2 < count ==> #[trigger] dfa@.edges[d1][d2] == cell(
                        listed_edges,
                        d1,
                        d2,
                        e as int,
                    ),
                forall|d: int| 0 <= d < count ==> !dfa@.finals[d],
                forall|d1: int, d2: int|
                    0 <= d1 < count && 0 <= d2 < count ==> cell_from_edges(
                        #[trigger] dfa@.edges[d1][d2],
                        d1,
                        d2,
                        edges@,
                        e as int,
                    ),
                forall|a: int| 0 <= a < e ==> dfa@.edges[(#[trigger] edges[a]).from as int][edges[a].to as int] is Some,
            decreases edges.len() - e,
        {
            let ghost before = dfa@;
            let from: usize = edges[e].from;
            let to: usize = edges[e].to;
            dfa.set_cell(from, to, Some(edges[e].text.clone()));
            proof {
                let after = dfa@;
                assert(listed_edges[e as int].from == from && listed_edges[e as int].to == to);
                assert(listed_edges[e as int].symbol == edges[e as int].symbol);
                assert forall|d1: int, d2: int| 0 <= d1 < count && 0 <= d2 < count implies #[trigger] after.edges[d1][d2]
                    == cell(listed_edges, d1, d2, e + 1) by {
                    if d1 == from && d2 == to {
                        assert(after.edges[d1][d2] == Some(seq![edges[e as int].symbol]));
                    } else {
                        assert(after.edges[d1][d2] == before.edges[d1][d2]);
                    }
                }
            }
            proof {
                let after = dfa@;
                assert forall|d1: int, d2: int| 0 <= d1 < count && 0 <= d2 < count implies cell_from_edges(
                    #[trigger] after.edges[d1][d2],
                    d1,
                    d2,
                    edges@,
                    e + 1,
                ) by {
                    if d1 == from && d2 == to {
                        assert(after.edges[d1][d2] == Some(seq![edges[e as int].symbol]));
                    } else {
                        assert(after.edges[d1][d2] == before.edges[d1][d2]);
                        assert(cell_from_edges(before.edges[d1][d2], d1, d2, edges@, e as int));
                        if before.edges[d1][d2] is Some {
                            let label = before.edges[d1][d2]->0;
                            let a = choose|a: int|
                                0 <= a < e && (#[trigger] edges[a]).from == d1 && edges[a].to == d2 && label
                                    == seq![edges[a].symbol];
                            assert(0 <= a < e + 1);
                        }
                    }
                }
                assert forall|a: int| 0 <= a < e + 1 implies after.edges[(#[trigger] edges[a]).from as int][edges[a].to as int] is Some by {
                    if a < e {
                        assert(before.edges[edges[a].from as int][edges[a].to as int] is Some);
                    }
                }
                assert(after.short_labels()) by {
                    assert forall|i: int, j: int|
                        0 <= i < after.edges.len() && 0 <= j < after.edges[i].len() implies match #[trigger] after.edges[i][j] {
                            Some(label) => label.len() <= 1,
                            None => true,
                        } by {
                        assert(cell_from_edges(after.edges[i][j], i, j, edges@, e + 1));
                    }
                }
            }
            e += 1;
        }
        let ghost wired = dfa@;
        let mut d: usize = 0;
        while d < count
            invariant
                count == rows.len(),
                finals.len() == count,
                finals@ == noted_finals,
                d <= count,
                dfa@.wf(),
                dfa@.size == count,
                dfa@.edges == wired.edges,
                forall|a: int| 0 <= a < d ==> dfa@.finals[a] == finals[a],
                forall|a: int| d <= a < count ==> !dfa@.finals[a],
            decreases count - d,
        {
            if finals[d] {
                dfa.set_final(d);
            }
            d += 1;
        }
        proof {
            let out = dfa@;
            assert(subs[0] == set![0int]);
            assert forall|d: int| 0 <= d < out.size implies inhabited(#[trigger] subs[d]) by {
                assert(inhabited(members(rows[d])));
            }
            assert forall|d1: int, d2: int|
                0 <= d1 < out.size && 0 <= d2 < out.size && d1 != d2 implies #[trigger] subs[d1] != #[trigger] subs[d2] by {
                if subs[d1] == subs[d2] {
                    lemma_members_injective(rows[d1], rows[d2]);
                }
            }
            assert forall|d1: int, d2: int| 0 <= d1 < out.size && 0 <= d2 < out.size implies match #[trigger] out.edges[d1][d2] {
                Some(label) => label.len() == 1 && nfa.delta(subs[d1], label[0]) == subs[d2],
                None => true,
            } by {
                assert(cell_from_edges(wired.edges[d1][d2], d1, d2, edges@, edges.len() as int));
                if out.edges[d1][d2] is Some {
                    let label = out.edges[d1][d2]->0;
                    let a = choose|a: int|
                        0 <= a < edges.len() && (#[trigger] edges[a]).from == d1 && edges[a].to == d2 && label
                            == seq![edges[a].symbol];
                    assert(label[0] == edges[a].symbol);
                }
            }
            assert forall|d1: int, c: char|
                0 <= d1 < out.size && inhabited(#[trigger] nfa.delta(subs[d1], c)) implies exists|d2: int|
                0 <= d2 < out.size && #[trigger] subs[d2] == nfa.delta(subs[d1], c) && out.edges[d1][d2] is Some by {
                assert(state_done(nfa, rows, edges@, d1));
                assert(inhabited(nfa.delta(members(rows[d1]), c)));
                let a = choose|a: int| 0 <= a < edges.len() && (#[trigger] edges[a]).from == d1 && edges[a].symbol == c;
                let d2 = edges[a].to as int;
                assert(subs[d2] == nfa.delta(subs[d1], c));
                assert(wired.edges[d1][d2] is Some);
            }
            assert forall|d: int| 0 <= d < out.size implies #[trigger] out.finals[d] == nfa.accepting(subs[d]) by {
                assert(out.finals[d] == finals[d]);
                assert(subs[d] == members(rows_of(subsets)[d]));
            }
            assert(subs.len() == out.size);
            assert(out.wf());
            assert(simulates(nfa, out, subs));
            assert forall|d: int| 0 <= d < subs.len() implies reachable(nfa, #[trigger] subs[d]) by {
                assert(reachable(nfa, members(rows[d])));
            }
            assert(reachable_sets(nfa, subs));
            assert(simulates(nfa, out, subs) && reachable_sets(nfa, subs));
        }
        proof {
            let out = dfa@;
            let found = nfa.explored(count as nat);
            assert(out.finals =~= found.finals);
            assert forall|d1: int, d2: int| 0 <= d1 < out.size && 0 <= d2 < out.size implies #[trigger] out.edges[d1][d2]
                == cell(found.edges, d1, d2, found.edges.len() as int) by {
                assert(wired.edges[d1][d2] == cell(listed_edges, d1, d2, edges.len() as int));
            }
            lemma_assembled(found, out);
        }
        dfa
    }
}

} // verus!
