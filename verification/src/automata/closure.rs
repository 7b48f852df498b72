//! Epsilon closures: the states reached by silent moves alone.
use vstd::prelude::*;

use crate::automata::model::{members, Machine};
use crate::automata::{cell_is_silent, unset_flags, AutomataImpl};

verus! {

/// How many flags of a row are set.
pub open spec fn count_set(flags: Seq<bool>) -> nat
    decreases flags.len(),
{
    if flags.len() == 0 {
        0
    } else {
        count_set(flags.drop_last()) + if flags.last() {
            1nat
        } else {
            0nat
        }
    }
}

proof fn lemma_count_bound(flags: Seq<bool>)
    ensures
        count_set(flags) <= flags.len(),
    decreases flags.len(),
{
    if flags.len() > 0 {
        lemma_count_bound(flags.drop_last());
    }
}

proof fn lemma_count_unset(flags: Seq<bool>)
    requires
        forall|i: int| 0 <= i < flags.len() ==> !flags[i],
    ensures
        count_set(flags) == 0,
    decreases flags.len(),
{
    if flags.len() > 0 {
        lemma_count_unset(flags.drop_last());
    }
}

proof fn lemma_count_grows(flags: Seq<bool>, j: int)
    requires
        0 <= j < flags.len(),
        !flags[j],
    ensures
        count_set(flags.update(j, true)) == count_set(flags) + 1,
    decreases flags.len(),
{
    let after = flags.update(j, true);
    if j == flags.len() - 1 {
        assert(after.drop_last() =~= flags.drop_last());
    } else {
        lemma_count_grows(flags.drop_last(), j);
        assert(after.drop_last() =~= flags.drop_last().update(j, true));
    }
}

/// A silent path can be continued by one more silent edge.
pub proof fn lemma_reach_extend(m: Machine, i: int, k: int, j: int)
    requires
        m.silently_reaches(i, k),
        m.has_silent_edge(k, j),
    ensures
        m.silently_reaches(i, j),
{
    let n = choose|n: nat| m.silently_reaches_in(i, k, n);
    assert(m.silently_reaches_in(i, j, n + 1));
}

/// Every state reaches itself silently.
pub proof fn lemma_reach_self(m: Machine, i: int)
    requires
        0 <= i < m.size,
    ensures
        m.silently_reaches(i, i),
{
    assert(m.silently_reaches_in(i, i, 0));
}

/// The end of a silent path is a state of the automaton.
pub proof fn lemma_reach_in_range(m: Machine, i: int, j: int, n: nat)
    requires
        m.silently_reaches_in(i, j, n),
    ensures
        0 <= i < m.size,
        0 <= j < m.size,
    decreases n,
{
    if n > 0 {
        let k = choose|k: int| m.silently_reaches_in(i, k, (n - 1) as nat) && m.has_silent_edge(k, j);
        lemma_reach_in_range(m, i, k, (n - 1) as nat);
    }
}

/// A set of states that is closed under silent edges holds whatever its
/// members reach silently.
proof fn lemma_closed_holds_reached(m: Machine, marked: Seq<bool>, i: int, j: int, n: nat)
    requires
        marked.len() == m.size,
        0 <= i < m.size,
        marked[i],
        forall|a: int, b: int| 0 <= a < m.size && marked[a] && #[trigger] m.has_silent_edge(a, b) ==> marked[b],
        m.silently_reaches_in(i, j, n),
    ensures
        0 <= j < m.size,
        marked[j],
    decreases n,
{
    if n > 0 {
        let k = choose|k: int| m.silently_reaches_in(i, k, (n - 1) as nat) && m.has_silent_edge(k, j);
        lemma_closed_holds_reached(m, marked, i, k, (n - 1) as nat);
    }
}

impl AutomataImpl {
    /// The epsilon closure of one state, as a row of flags: a search along
    /// silent edges that marks each state once, so that a silent loop is
    /// walked a single time.
    pub fn get_state_epsilon_closure(&self, state: usize) -> (closure: Vec<bool>)
        requires
            self@.well_sized(),
            state < self.size,
        ensures
            closure.len() == self.size,
            forall|j: int| 0 <= j < self.size ==> (closure[j] <==> self@.silently_reaches(state as int, j)),
            members(closure@) == self@.closure(set![state as int]),
    {
        let n: usize = self.size;
        let mut visited = unset_flags(n);
        proof {
            lemma_count_unset(visited@);
            lemma_count_grows(visited@, state as int);
            lemma_reach_self(self@, state as int);
        }
        visited[state] = true;
        let mut queue: Vec<usize> = Vec::new();
        queue.push(state);
        let mut head: usize = 0;
        assert(queue[0] == state);
        while head < queue.len()
            invariant
                n == self.size,
                self@.well_sized(),
                state < n,
                visited.len() == n,
                visited[state as int],
                head <= queue.len(),
                queue.len() == count_set(visited@),
                forall|k: int| 0 <= k < queue.len() ==> (#[trigger] queue[k]) < n && visited[queue[k] as int],
                forall|j: int|
                    0 <= j < n && #[trigger] visited[j] ==> exists|k: int|
                        0 <= k < queue.len() && #[trigger] queue[k] == j,
                forall|j: int| 0 <= j < n && #[trigger] visited[j] ==> self@.silently_reaches(state as int, j),
                forall|k: int, j: int|
                    0 <= k < head && #[trigger] self@.has_silent_edge(queue[k] as int, j) ==> visited[j],
            decreases n - head,
        {
            proof {
                lemma_count_bound(visited@);
            }
            let s: usize = queue[head];
            let mut j: usize = 0;
            while j < n
                invariant
                    n == self.size,
                    self@.well_sized(),
                    state < n,
                    visited.len() == n,
                    visited[state as int],
                    head < queue.len(),
                    s == queue[head as int],
                    s < n,
                    j <= n,
                    queue.len() == count_set(visited@),
                    forall|k: int| 0 <= k < queue.len() ==> (#[trigger] queue[k]) < n && visited[queue[k] as int],
                    forall|b: int|
                        0 <= b < n && #[trigger] visited[b] ==> exists|k: int|
                            0 <= k < queue.len() && #[trigger] queue[k] == b,
                    forall|b: int| 0 <= b < n && #[trigger] visited[b] ==> self@.silently_reaches(state as int, b),
                    forall|k: int, b: int|
                        0 <= k < head && #[trigger] self@.has_silent_edge(queue[k] as int, b) ==> visited[b],
                    forall|b: int| 0 <= b < j && self@.has_silent_edge(s as int, b) ==> visited[b],
                decreases n - j,
            {
                assert(self@.edges[s as int].len() == n);
                let silent: bool = cell_is_silent(&self.transitions[s][j]);
                assert(silent == self@.has_silent_edge(s as int, j as int));
                if silent && !visited[j] {
                    proof {
                        lemma_count_grows(visited@, j as int);
                        lemma_reach_extend(self@, state as int, s as int, j as int);
                    }
                    let ghost before = queue@;
                    let ghost marked = visited@;
                    visited[j] = true;
                    queue.push(j);
                    assert forall|b: int| 0 <= b < n && #[trigger] visited[b] implies exists|k: int|
                        0 <= k < queue.len() && #[trigger] queue[k] == b by {
                        if b == j {
                            assert(queue[before.len() as int] == b);
                        } else {
                            assert(marked[b]);
                            let k = choose|k: int| 0 <= k < before.len() && #[trigger] before[k] == b;
                            assert(queue[k] == b);
                        }
                    }
                    assert forall|k: int, b: int|
                        0 <= k < head && #[trigger] self@.has_silent_edge(queue[k] as int, b) implies visited[b] by {
                        assert(queue[k] == before[k]);
                        assert(marked[b]);
                    }
                }
                j += 1;
            }
            assert forall|k: int, b: int|
                0 <= k < head + 1 && #[trigger] self@.has_silent_edge(queue[k] as int, b) implies visited[b] by {
                if k == head {
                    assert(0 <= b < n);
                }
            }
            head += 1;
        }
        proof {
            let m = self@;
            let marked = visited@;
            assert forall|a: int, b: int| 0 <= a < m.size && marked[a] && #[trigger] m.has_silent_edge(a, b) implies marked[b] by {
                let k = choose|k: int| 0 <= k < queue.len() && #[trigger] queue[k] == a;
                assert(m.has_silent_edge(queue[k] as int, b));
            }
            assert forall|j: int| 0 <= j < n implies (visited[j] <==> m.silently_reaches(state as int, j)) by {
                if m.silently_reaches(state as int, j) {
                    let steps = choose|steps: nat| m.silently_reaches_in(state as int, j, steps);
                    lemma_closed_holds_reached(m, marked, state as int, j, steps);
                }
            }
            assert forall|j: int| members(visited@).contains(j) <==> m.closure(set![state as int]).contains(j) by {
                if m.closure(set![state as int]).contains(j) {
                    let i = choose|i: int| set![state as int].contains(i) && m.silently_reaches(i, j);
                    let steps = choose|steps: nat| m.silently_reaches_in(i, j, steps);
                    lemma_reach_in_range(m, i, j, steps);
                }
                if members(visited@).contains(j) {
                    assert(set![state as int].contains(state as int));
                }
            }
            assert(members(visited@) =~= m.closure(set![state as int]));
        }
        visited
    }

    /// The epsilon closure of a set of states: the union of the closures of
    /// its members.
    pub fn get_epsilon_closure(&self, subset: &Vec<bool>) -> (closure: Vec<bool>)
        requires
            self@.well_sized(),
            subset.len() == self.size,
        ensures
            closure.len() == self.size,
            members(closure@) == self@.closure(members(subset@)),
    {
        let n: usize = self.size;
        let mut closure = unset_flags(n);
        let mut i: usize = 0;
        while i < n
            invariant
                n == self.size,
                self@.well_sized(),
                subset.len() == n,
                closure.len() == n,
                i <= n,
                forall|j: int|
                    0 <= j < n ==> (#[trigger] closure[j] <==> exists|a: int|
                        0 <= a < i && subset[a] && self@.silently_reaches(a, j)),
            decreases n - i,
        {
            if subset[i] {
                let reached = self.get_state_epsilon_closure(i);
                let ghost before = closure@;
                let mut j: usize = 0;
                while j < n
                    invariant
                        n == self.size,
                        closure.len() == n,
                        reached.len() == n,
                        before.len() == n,
                        j <= n,
                        forall|b: int| 0 <= b < j ==> (#[trigger] closure[b] <==> before[b] || reached[b]),
                        forall|b: int| j <= b < n ==> #[trigger] closure[b] == before[b],
                    decreases n - j,
                {
                    if reached[j] {
                        closure[j] = true;
                    }
                    j += 1;
                }
                assert forall|j: int| 0 <= j < n implies (#[trigger] closure[j] <==> exists|a: int|
                    0 <= a < i + 1 && subset[a] && self@.silently_reaches(a, j)) by {
                    if closure[j] {
                        if before[j] {
                            let a = choose|a: int| 0 <= a < i && subset[a] && self@.silently_reaches(a, j);
                            assert(0 <= a < i + 1 && subset[a] && self@.silently_reaches(a, j));
                        } else {
                            assert(reached[j]);
                            assert(subset[i as int] && self@.silently_reaches(i as int, j));
                        }
                    }
                    if exists|a: int| 0 <= a < i + 1 && subset[a] && self@.silently_reaches(a, j) {
                        let a = choose|a: int| 0 <= a < i + 1 && subset[a] && self@.silently_reaches(a, j);
                        if a < i {
                            assert(before[j]);
                        } else {
                            assert(reached[j]);
                        }
                    }
                }
            } else {
                assert forall|j: int| 0 <= j < n implies (#[trigger] closure[j] <==> exists|a: int|
                    0 <= a < i + 1 && subset[a] && self@.silently_reaches(a, j)) by {
                    if exists|a: int| 0 <= a < i + 1 && subset[a] && self@.silently_reaches(a, j) {
                        let a = choose|a: int| 0 <= a < i + 1 && subset[a] && self@.silently_reaches(a, j);
                        assert(a < i);
                    }
                    if closure[j] {
                        let a = choose|a: int| 0 <= a < i && subset[a] && self@.silently_reaches(a, j);
                        assert(0 <= a < i + 1 && subset[a] && self@.silently_reaches(a, j));
                    }
                }
            }
            i += 1;
        }
        proof {
            let m = self@;
            let from = members(subset@);
            assert forall|j: int| members(closure@).contains(j) <==> m.closure(from).contains(j) by {
                if members(closure@).contains(j) {
                    let a = choose|a: int| 0 <= a < n && subset[a] && m.silently_reaches(a, j);
                    assert(from.contains(a));
                }
                if m.closure(from).contains(j) {
                    let a = choose|a: int| from.contains(a) && m.silently_reaches(a, j);
                    let steps = choose|steps: nat| m.silently_reaches_in(a, j, steps);
                    lemma_reach_in_range(m, a, j, steps);
                    assert(0 <= a < n && subset[a] && m.silently_reaches(a, j));
                }
            }
            assert(members(closure@) =~= m.closure(from));
        }
        closure
    }
}

} // verus!
