//! What it means for a deterministic automaton to simulate another one
//! through sets of its states, and why such an automaton has the same
//! language.
use vstd::prelude::*;
use vstd::set_lib::{lemma_int_range, lemma_len_subset, set_int_range};

use crate::automata::model::{lemma_first_edge, Machine};

verus! {

/// A set of states with at least one member.
pub open spec fn inhabited(states: Set<int>) -> bool {
    exists|q: int| states.contains(q)
}

/// `dfa` simulates `nfa` through `subs`: state `d` of `dfa` stands for the set
/// `subs[d]` of states of `nfa`. State zero stands for the start state alone,
/// distinct states stand for distinct inhabited sets, a state accepts when the
/// closure of its set holds an accepting state, every edge leads where its
/// label leads the set, and wherever a character leads a set somewhere, an
/// edge leads to the state of that target.
pub open spec fn simulates(nfa: Machine, dfa: Machine, subs: Seq<Set<int>>) -> bool {
    &&& dfa.wf()
    &&& subs.len() == dfa.size
    &&& subs[0] == set![0int]
    &&& forall|d: int| 0 <= d < dfa.size ==> inhabited(#[trigger] subs[d])
    &&& forall|d1: int, d2: int|
        0 <= d1 < dfa.size && 0 <= d2 < dfa.size && d1 != d2 ==> #[trigger] subs[d1] != #[trigger] subs[d2]
    &&& forall|d: int| 0 <= d < dfa.size ==> #[trigger] dfa.finals[d] == nfa.accepting(subs[d])
    &&& forall|d1: int, d2: int|
        0 <= d1 < dfa.size && 0 <= d2 < dfa.size ==> match #[trigger] dfa.edges[d1][d2] {
            Some(label) => label.len() == 1 && nfa.delta(subs[d1], label[0]) == subs[d2],
            None => true,
        }
    &&& forall|d1: int, c: char|
        0 <= d1 < dfa.size && inhabited(#[trigger] nfa.delta(subs[d1], c)) ==> exists|d2: int|
            0 <= d2 < dfa.size && #[trigger] subs[d2] == nfa.delta(subs[d1], c) && dfa.edges[d1][d2] is Some
}

/// Some word leads the start state to exactly the set `states`.
#[verifier::opaque]
pub open spec fn reachable(nfa: Machine, states: Set<int>) -> bool {
    exists|word: Seq<char>| nfa.run(set![0int], word) == states
}

/// Every one of the sets `subs` is reached from the start state by some
/// word.
pub open spec fn reachable_sets(nfa: Machine, subs: Seq<Set<int>>) -> bool {
    forall|d: int| 0 <= d < subs.len() ==> reachable(nfa, #[trigger] subs[d])
}

/// `dfa` is a deterministic form of `nfa`: it simulates `nfa` through sets
/// of states that words reach.
pub open spec fn determinizes(nfa: Machine, dfa: Machine) -> bool {
    exists|subs: Seq<Set<int>>| simulates(nfa, dfa, subs) && reachable_sets(nfa, subs)
}

/// No two characters lead a set of states that some word reaches to one
/// and the same inhabited set. An automaton on which this fails has no
/// deterministic form with one label per cell.
pub open spec fn separable(nfa: Machine) -> bool {
    forall|word: Seq<char>, c1: char, c2: char|
        c1 != c2 && inhabited(#[trigger] nfa.delta(nfa.run(set![0int], word), c1)) ==> nfa.delta(
            nfa.run(set![0int], word),
            c1,
        ) != #[trigger] nfa.delta(nfa.run(set![0int], word), c2)
}

/// No two characters lead any of the sets `subs` to one and the same
/// inhabited set: only then can a matrix with one label per cell hold every
/// move of the simulation.
pub open spec fn separates_labels(nfa: Machine, subs: Seq<Set<int>>) -> bool {
    forall|d: int, c1: char, c2: char|
        0 <= d < subs.len() && c1 != c2 && inhabited(#[trigger] nfa.delta(subs[d], c1)) ==> nfa.delta(subs[d], c1)
            != #[trigger] nfa.delta(subs[d], c2)
}

/// Reading one more character leads the set that a word leads to where the
/// character leads it.
pub proof fn lemma_run_push(nfa: Machine, states: Set<int>, word: Seq<char>, c: char)
    ensures
        nfa.run(states, word.push(c)) == nfa.delta(nfa.run(states, word), c),
    decreases word.len(),
{
    let longer = word.push(c);
    if word.len() == 0 {
        assert(longer.drop_first() =~= Seq::<char>::empty());
        assert(nfa.run(nfa.delta(states, c), longer.drop_first()) == nfa.delta(states, c));
    } else {
        assert(longer.drop_first() =~= word.drop_first().push(c));
        lemma_run_push(nfa, nfa.delta(states, word[0]), word.drop_first(), c);
    }
}

/// The start state alone is reachable: the empty word leads to it.
pub proof fn lemma_reachable_start(nfa: Machine)
    ensures
        reachable(nfa, set![0int]),
{
    reveal(reachable);
    assert(nfa.run(set![0int], Seq::<char>::empty()) == set![0int]);
}

/// What a character leads a reachable set to is reachable.
pub proof fn lemma_reachable_step(nfa: Machine, states: Set<int>, c: char)
    requires
        reachable(nfa, states),
    ensures
        reachable(nfa, nfa.delta(states, c)),
{
    reveal(reachable);
    let word = choose|word: Seq<char>| nfa.run(set![0int], word) == states;
    lemma_run_push(nfa, set![0int], word, c);
    assert(nfa.run(set![0int], word.push(c)) == nfa.delta(states, c));
}

/// A separable automaton separates the labels of reachable sets.
pub proof fn lemma_separable(nfa: Machine, subs: Seq<Set<int>>)
    requires
        separable(nfa),
        reachable_sets(nfa, subs),
    ensures
        separates_labels(nfa, subs),
{
    assert forall|d: int, c1: char, c2: char|
        0 <= d < subs.len() && c1 != c2 && inhabited(#[trigger] nfa.delta(subs[d], c1)) implies nfa.delta(subs[d], c1)
        != #[trigger] nfa.delta(subs[d], c2) by {
        assert(reachable(nfa, subs[d]));
        reveal(reachable);
        let word = choose|word: Seq<char>| nfa.run(set![0int], word) == subs[d];
        assert(inhabited(nfa.delta(nfa.run(set![0int], word), c1)));
        assert(nfa.delta(nfa.run(set![0int], word), c1) != nfa.delta(nfa.run(set![0int], word), c2));
    }
}

/// From an empty set of states no word leads anywhere.
pub proof fn lemma_run_of_nothing(nfa: Machine, states: Set<int>, word: Seq<char>)
    requires
        !inhabited(states),
    ensures
        !inhabited(nfa.run(states, word)),
        !nfa.accepting(nfa.run(states, word)),
    decreases word.len(),
{
    assert forall|s: Set<int>| !inhabited(s) implies !inhabited(#[trigger] nfa.closure(s)) by {
        if inhabited(nfa.closure(s)) {
            let q = choose|q: int| nfa.closure(s).contains(q);
            let i = choose|i: int| s.contains(i) && nfa.silently_reaches(i, q);
            assert(s.contains(i));
        }
    }
    if word.len() == 0 {
        assert(!inhabited(nfa.closure(states)));
        if nfa.accepting(states) {
            let q = choose|q: int| nfa.closure(states).contains(q) && 0 <= q < nfa.finals.len() && nfa.finals[q];
            assert(nfa.closure(states).contains(q));
        }
    } else {
        let next = nfa.delta(states, word[0]);
        if inhabited(next) {
            let j = choose|j: int| next.contains(j);
            let i = choose|i: int| nfa.closure(states).contains(i) && nfa.has_edge(i, word[0], j);
            assert(nfa.closure(states).contains(i));
        }
        lemma_run_of_nothing(nfa, next, word.drop_first());
    }
}

/// Under a simulation that separates labels, a walk of `dfa` from `d` ends in
/// the state that stands for the set that `word` leads `subs[d]` to, and gets
/// stuck exactly where that set is empty.
pub proof fn lemma_walk_tracks_run(nfa: Machine, dfa: Machine, subs: Seq<Set<int>>, d: int, word: Seq<char>)
    requires
        simulates(nfa, dfa, subs),
        separates_labels(nfa, subs),
        0 <= d < dfa.size,
    ensures
        match dfa.walk(d, word) {
            Some(end) => 0 <= end < dfa.size && nfa.run(subs[d], word) == subs[end],
            None => !nfa.accepting(nfa.run(subs[d], word)),
        },
    decreases word.len(),
{
    if word.len() > 0 {
        let c = word[0];
        let target = nfa.delta(subs[d], c);
        lemma_first_edge(dfa, d, c, 0);
        match dfa.step(d, c) {
            Some(next) => {
                assert(dfa.has_edge(d, c, next));
                assert(dfa.edges[d][next] == Some(seq![c]));
                assert(seq![c][0] == c);
                assert(target == subs[next]);
                lemma_walk_tracks_run(nfa, dfa, subs, next, word.drop_first());
            },
            None => {
                if inhabited(target) {
                    let d2 = choose|d2: int|
                        0 <= d2 < dfa.size && #[trigger] subs[d2] == target && dfa.edges[d][d2] is Some;
                    let label = dfa.edges[d][d2]->0;
                    assert(label.len() == 1 && nfa.delta(subs[d], label[0]) == subs[d2]);
                    if label[0] != c {
                        assert(nfa.delta(subs[d], c) != nfa.delta(subs[d], label[0]));
                    }
                    assert(label =~= seq![c]);
                    assert(dfa.has_edge(d, c, d2));
                }
                lemma_run_of_nothing(nfa, target, word.drop_first());
            },
        }
    }
}

/// Without silent edges a state reaches only itself silently.
pub proof fn lemma_reach_without_silent_edges(m: Machine, i: int, j: int, n: nat)
    requires
        m.deterministic(),
        m.silently_reaches_in(i, j, n),
    ensures
        i == j,
        0 <= i < m.size,
    decreases n,
{
    if n > 0 {
        let k = choose|k: int| m.silently_reaches_in(i, k, (n - 1) as nat) && m.has_silent_edge(k, j);
        assert(!m.has_silent_edge(k, j));
    }
}

/// Without silent edges the closure of one state is that state.
pub proof fn lemma_closure_of_one(m: Machine, q: int)
    requires
        m.deterministic(),
        0 <= q < m.size,
    ensures
        m.closure(set![q]) == set![q],
{
    assert forall|j: int| m.closure(set![q]).contains(j) <==> set![q].contains(j) by {
        if m.closure(set![q]).contains(j) {
            let i = choose|i: int| set![q].contains(i) && m.silently_reaches(i, j);
            let n = choose|n: nat| m.silently_reaches_in(i, j, n);
            lemma_reach_without_silent_edges(m, i, j, n);
        }
        if j == q {
            assert(m.silently_reaches_in(q, q, 0));
            assert(set![q].contains(q) && m.silently_reaches(q, q));
        }
    }
    assert(m.closure(set![q]) =~= set![q]);
}

/// On a deterministic automaton the set of states that a word leads one
/// state to is the state in which the walk ends, and is empty where the
/// walk gets stuck.
pub proof fn lemma_walk_is_run(m: Machine, q: int, word: Seq<char>)
    requires
        m.well_sized(),
        m.deterministic(),
        0 <= q < m.size,
    ensures
        match m.walk(q, word) {
            Some(end) => 0 <= end < m.size && m.run(set![q], word) == set![end],
            None => !inhabited(m.run(set![q], word)),
        },
    decreases word.len(),
{
    if word.len() > 0 {
        let c = word[0];
        let target = m.delta(set![q], c);
        lemma_first_edge(m, q, c, 0);
        lemma_closure_of_one(m, q);
        match m.step(q, c) {
            Some(next) => {
                assert forall|j: int| target.contains(j) <==> set![next].contains(j) by {
                    if target.contains(j) {
                        let i = choose|i: int| m.closure(set![q]).contains(i) && m.has_edge(i, c, j);
                        assert(i == q);
                    }
                    if j == next {
                        assert(m.closure(set![q]).contains(q) && m.has_edge(q, c, next));
                    }
                }
                assert(target =~= set![next]);
                lemma_walk_is_run(m, next, word.drop_first());
            },
            None => {
                if inhabited(target) {
                    let j = choose|j: int| target.contains(j);
                    let i = choose|i: int| m.closure(set![q]).contains(i) && m.has_edge(i, c, j);
                    assert(i == q);
                }
                lemma_run_of_nothing(m, target, word.drop_first());
            },
        }
    }
}

/// On a deterministic automaton the walk along the first matching edge
/// decides the language: it accepts exactly the words that the automaton
/// accepts.
pub proof fn lemma_walk_decides_language(m: Machine, word: Seq<char>)
    requires
        m.well_sized(),
        m.deterministic(),
    ensures
        m.walk_accepts(word) == m.accepts(word),
{
    lemma_walk_is_run(m, 0, word);
    let reached = m.run(set![0int], word);
    match m.walk(0, word) {
        Some(end) => {
            lemma_closure_of_one(m, end);
            if m.accepts(word) {
                let q = choose|q: int| m.closure(reached).contains(q) && 0 <= q < m.finals.len() && m.finals[q];
                assert(set![end].contains(q));
            }
            if m.walk_accepts(word) {
                assert(m.closure(reached).contains(end) && 0 <= end < m.finals.len() && m.finals[end]);
            }
        },
        None => {
            lemma_run_of_nothing(m, reached, Seq::<char>::empty());
        },
    }
}

/// An automaton that simulates another one through sets of states is
/// deterministic.
pub proof fn lemma_simulation_is_deterministic(nfa: Machine, dfa: Machine, subs: Seq<Set<int>>)
    requires
        simulates(nfa, dfa, subs),
    ensures
        dfa.deterministic(),
{
    assert forall|i: int, j: int| !(#[trigger] dfa.has_silent_edge(i, j)) by {
        if dfa.has_silent_edge(i, j) {
            assert(dfa.edges[i][j] is Some);
        }
    }
    assert forall|i: int, c: char, j1: int, j2: int|
        #[trigger] dfa.has_edge(i, c, j1) && #[trigger] dfa.has_edge(i, c, j2) implies j1 == j2 by {
        assert(dfa.edges[i][j1] == Some(seq![c]));
        assert(dfa.edges[i][j2] == Some(seq![c]));
        assert(seq![c][0] == c);
        assert(subs[j1] == nfa.delta(subs[i], c));
        assert(subs[j2] == nfa.delta(subs[i], c));
    }
}

/// Making an automaton deterministic keeps its language: where `dfa`
/// simulates a separable `nfa` through reachable sets, as the subset
/// construction has it, `dfa` is deterministic and accepts exactly the
/// words that `nfa` accepts, and so does its walk along the first matching
/// edge.
pub proof fn lemma_determinize_preserves_language(
    nfa: Machine,
    dfa: Machine,
    subs: Seq<Set<int>>,
    word: Seq<char>,
)
    requires
        simulates(nfa, dfa, subs),
        reachable_sets(nfa, subs),
        separable(nfa),
    ensures
        dfa.deterministic(),
        dfa.walk_accepts(word) == nfa.accepts(word),
        dfa.accepts(word) == nfa.accepts(word),
{
    lemma_separable(nfa, subs);
    lemma_walk_tracks_run(nfa, dfa, subs, 0, word);
    lemma_simulation_is_deterministic(nfa, dfa, subs);
    lemma_walk_decides_language(dfa, word);
}

/// Two to the power `n`.
pub open spec fn two_pow(n: nat) -> nat
    decreases n,
{
    if n == 0 {
        1
    } else {
        2 * two_pow((n - 1) as nat)
    }
}

/// A row of flags read as a number in base two.
pub open spec fn code(flags: Seq<bool>) -> nat
    decreases flags.len(),
{
    if flags.len() == 0 {
        0
    } else {
        2 * code(flags.drop_last()) + if flags.last() {
            1nat
        } else {
            0nat
        }
    }
}

proof fn lemma_code_bound(flags: Seq<bool>)
    ensures
        code(flags) < two_pow(flags.len()),
    decreases flags.len(),
{
    if flags.len() > 0 {
        lemma_code_bound(flags.drop_last());
    }
}

proof fn lemma_code_injective(a: Seq<bool>, b: Seq<bool>)
    requires
        a.len() == b.len(),
        code(a) == code(b),
    ensures
        a == b,
    decreases a.len(),
{
    if a.len() > 0 {
        lemma_code_injective(a.drop_last(), b.drop_last());
        assert(a =~= a.drop_last().push(a.last()));
        assert(b =~= b.drop_last().push(b.last()));
    } else {
        assert(a =~= b);
    }
}

/// There are at most two to the power `n` distinct rows of `n` flags.
pub proof fn lemma_distinct_rows_bound(rows: Seq<Seq<bool>>, n: nat)
    requires
        forall|i: int| 0 <= i < rows.len() ==> (#[trigger] rows[i]).len() == n,
        forall|i: int, j: int| 0 <= i < rows.len() && 0 <= j < rows.len() && i != j ==> rows[i] != rows[j],
    ensures
        rows.len() <= two_pow(n),
{
    let codes = Seq::new(rows.len(), |i: int| code(rows[i]) as int);
    assert forall|i: int, j: int| 0 <= i < codes.len() && 0 <= j < codes.len() && i != j implies codes[i]
        != codes[j] by {
        if codes[i] == codes[j] {
            lemma_code_injective(rows[i], rows[j]);
        }
    }
    codes.unique_seq_to_set();
    let all = set_int_range(0, two_pow(n) as int);
    lemma_int_range(0, two_pow(n) as int);
    assert forall|x: int| codes.to_set().contains(x) implies all.contains(x) by {
        let i = choose|i: int| 0 <= i < codes.len() && codes[i] == x;
        lemma_code_bound(rows[i]);
    }
    lemma_len_subset(codes.to_set(), all);
}

} // verus!
