//! The hypothesis: the automaton that the tables describe.
use vstd::prelude::*;
use vstd::string::*;

use crate::automata::model::Machine;
use crate::automata::{AutomataImpl, START};
use crate::mat::Mat;
use crate::nl::main_table::positions_view;
use crate::nl::table::{within, Table};
use crate::nl::{NlImpl, Tables};

verus! {

/// The list of absorbed basic prefixes holds exactly the positions, below
/// `upto`, of the basic prefixes whose row lies within `source`.
pub proof fn lemma_absorbed(table: Table, source: Seq<bool>, upto: int)
    requires
        0 <= upto,
    ensures
        forall|x: int| 0 <= x < table.absorbed(source, upto).len() ==> 0 <= #[trigger] table.absorbed(source, upto)[x] < upto,
        forall|q: int|
            0 <= q < upto ==> (table.absorbed(source, upto).contains(q) <==> within(#[trigger] table.rows[table.basic[q]], source)),
    decreases upto,
{
    if upto > 0 {
        lemma_absorbed(table, source, upto - 1);
        let fewer = table.absorbed(source, upto - 1);
        let all = table.absorbed(source, upto);
        assert forall|q: int| 0 <= q < upto implies (all.contains(q) <==> within(
            #[trigger] table.rows[table.basic[q]],
            source,
        )) by {
            if within(table.rows[table.basic[upto - 1]], source) {
                assert(all == fewer.push(upto - 1));
                if q == upto - 1 {
                    assert(all[fewer.len() as int] == q);
                } else {
                    if fewer.contains(q) {
                        let x = choose|x: int| 0 <= x < fewer.len() && fewer[x] == q;
                        assert(all[x] == q);
                    }
                    if all.contains(q) {
                        let x = choose|x: int| 0 <= x < all.len() && all[x] == q;
                        assert(fewer[x] == q);
                    }
                }
            } else {
                if q == upto - 1 {
                    if all.contains(q) {
                        let x = choose|x: int| 0 <= x < all.len() && all[x] == q;
                    }
                }
            }
        }
    }
}

impl Tables {
    /// The row of the basic prefix at position `q` of the list lies within
    /// `source`: the state of that prefix absorbs what has the row `source`.
    pub open spec fn absorbs(self, q: int, source: Seq<bool>) -> bool {
        within(self.main.rows[self.main.basic[q]], source)
    }

    /// The last of the first `upto` characters of the alphabet behind which
    /// the basic prefix number `p` is absorbed by the basic prefix number
    /// `q`.
    pub open spec fn last_letter(self, p: int, q: int, upto: int) -> Option<int>
        decreases upto,
    {
        if upto <= 0 {
            None
        } else if self.absorbs(q, self.extension_row(self.main.basic[p], upto - 1)) {
            Some(upto - 1)
        } else {
            self.last_letter(p, q, upto - 1)
        }
    }

    /// The label from state `s` to state `t` of the hypothesis: nothing
    /// leads to the start state; the start state has a silent edge to every
    /// basic prefix whose row lies within the row of the empty prefix; the
    /// state of a basic prefix has, to every basic prefix whose row lies
    /// within the row of one of its one-letter extensions, an edge with the
    /// character of that extension, the last in the alphabet where there
    /// are several.
    pub open spec fn label(self, s: int, t: int) -> Option<Seq<char>> {
        if t == 0 {
            None
        } else if s == 0 {
            if self.absorbs(t - 1, self.main.rows[0]) {
                Some(Seq::<char>::empty())
            } else {
                None
            }
        } else {
            match self.last_letter(s - 1, t - 1, self.alphabet.len() as int) {
                Some(a) => Some(seq![self.alphabet[a]]),
                None => None,
            }
        }
    }

    /// The hypothesis of the tables: the start state, and one state per
    /// basic prefix, accepting where the row of the prefix holds the empty
    /// suffix.
    pub open spec fn hypothesis(self) -> Machine {
        let states = self.main.basic.len() + 1;
        Machine {
            size: states,
            edges: Seq::new(states, |s: int| Seq::new(states, |t: int| self.label(s, t))),
            starts: Seq::new(states, |s: int| s == 0),
            finals: Seq::new(states, |s: int| s >= 1 && self.main.rows[self.main.basic[s - 1]][0]),
        }
    }
}

impl<'a, M: Mat> NlImpl<'a, M> {
    /// The number of the state of each basic prefix, in the order of the
    /// list: zero is kept for the start state.
    pub fn enumerate_basic_prefixes(&self) -> (prefix_to_index: Vec<usize>)
        requires
            self.main_table.basic_prefixes.len() < usize::MAX,
        ensures
            prefix_to_index.len() == self.main_table.basic_prefixes.len(),
            forall|k: int| 0 <= k < prefix_to_index.len() ==> prefix_to_index[k] == k + 1,
    {
        let mut prefix_to_index: Vec<usize> = Vec::new();
        let mut k: usize = 0;
        while k < self.main_table.basic_prefixes.len()
            invariant
                self.main_table.basic_prefixes.len() < usize::MAX,
                k <= self.main_table.basic_prefixes.len(),
                prefix_to_index.len() == k,
                forall|a: int| 0 <= a < k ==> prefix_to_index[a] == a + 1,
            decreases self.main_table.basic_prefixes.len() - k,
        {
            prefix_to_index.push(k + 1);
            k += 1;
        }
        prefix_to_index
    }

    /// Gives the state `from` an edge labelled `label` to the state of
    /// every basic prefix whose row lies within `source`.
    fn link_absorbed(&self, automata: &mut AutomataImpl, from: usize, source: &Vec<bool>, label: &str)
        requires
            self.wf(),
            old(automata)@.well_sized(),
            old(automata)@.size == self.main_table.basic_prefixes.len() + 1,
            from < old(automata).size,
            source.len() == self.main_table.suffixes.len(),
        ensures
            final(automata)@.well_sized(),
            final(automata)@ == (Machine {
                edges: old(automata)@.edges.update(
                    from as int,
                    Seq::new(
                        old(automata)@.size,
                        |t: int|
                            if t >= 1 && self@.absorbs(t - 1, source@) {
                                Some(label@)
                            } else {
                                old(automata)@.edges[from as int][t]
                            },
                    ),
                ),
                ..old(automata)@
            }),
    {
        let ghost before = automata@;
        let ghost table = self.main_table@;
        let ghost count = self.main_table.basic_prefixes.len() as int;
        let prefix_to_index = self.enumerate_basic_prefixes();
        let absorbed_prefixes = self.main_table.get_absorbed_basic_prefixes(source);
        let ghost listed = positions_view(absorbed_prefixes@);
        proof {
            lemma_absorbed(table, source@, count);
        }
        let mut x: usize = 0;
        while x < absorbed_prefixes.len()
            invariant
                self.wf(),
                table == self.main_table@,
                count == self.main_table.basic_prefixes.len(),
                before.well_sized(),
                before.size == count + 1,
                from < before.size,
                prefix_to_index.len() == count,
                forall|k: int| 0 <= k < count ==> prefix_to_index[k] == k + 1,
                listed == positions_view(absorbed_prefixes@),
                listed == table.absorbed(source@, count),
                forall|y: int| 0 <= y < absorbed_prefixes.len() ==> (#[trigger] absorbed_prefixes[y]) < count,
                x <= absorbed_prefixes.len(),
                automata@.well_sized(),
                automata@.size == before.size,
                automata@.starts == before.starts,
                automata@.finals == before.finals,
                forall|s: int, t: int|
                    0 <= s < before.size && 0 <= t < before.size && s != from ==> automata@.edges[s][t]
                        == before.edges[s][t],
                forall|t: int|
                    0 <= t < before.size ==> #[trigger] automata@.edges[from as int][t] == if t >= 1 && exists|y: int|
                        0 <= y < x && #[trigger] listed[y] == t - 1 {
                        Some(label@)
                    } else {
                        before.edges[from as int][t]
                    },
            decreases absorbed_prefixes.len() - x,
        {
            let ghost mid = automata@;
            let q: usize = absorbed_prefixes[x];
            assert(listed[x as int] == q);
            let to: usize = prefix_to_index[q];
            automata.set_cell(from, to, Some(String::from_str(label)));
            proof {
                let now = automata@;
                assert forall|t: int| 0 <= t < before.size implies #[trigger] now.edges[from as int][t] == if t >= 1
                    && exists|y: int| 0 <= y < x + 1 && #[trigger] listed[y] == t - 1 {
                    Some(label@)
                } else {
                    before.edges[from as int][t]
                } by {
                    if t == to {
                        assert(listed[x as int] == t - 1);
                    } else {
                        assert(now.edges[from as int][t] == mid.edges[from as int][t]);
                        if t >= 1 && exists|y: int| 0 <= y < x + 1 && #[trigger] listed[y] == t - 1 {
                            let y = choose|y: int| 0 <= y < x + 1 && #[trigger] listed[y] == t - 1;
                            assert(y < x);
                        }
                    }
                }
                assert forall|s: int, t: int|
                    0 <= s < before.size && 0 <= t < before.size && s != from implies now.edges[s][t]
                    == before.edges[s][t] by {
                    assert(now.edges[s][t] == mid.edges[s][t]);
                }
            }
            x += 1;
        }
        proof {
            let now = automata@;
            let row = Seq::new(
                before.size,
                |t: int|
                    if t >= 1 && self@.absorbs(t - 1, source@) {
                        Some(label@)
                    } else {
                        before.edges[from as int][t]
                    },
            );
            let goal = before.edges.update(from as int, row);
            assert(now.edges.len() == goal.len());
            assert forall|s: int| 0 <= s < now.edges.len() implies #[trigger] now.edges[s] =~= goal[s] by {
                assert(now.edges[s].len() == before.size);
                assert(before.edges[s].len() == before.size);
                if s == from {
                    assert forall|t: int| 0 <= t < before.size implies now.edges[s][t] == row[t] by {
                        if t >= 1 {
                            assert(listed.contains(t - 1) <==> within(table.rows[table.basic[t - 1]], source@));
                            if exists|y: int| 0 <= y < absorbed_prefixes.len() && #[trigger] listed[y] == t - 1 {
                                let y = choose|y: int| 0 <= y < absorbed_prefixes.len() && #[trigger] listed[y] == t - 1;
                                assert(listed.contains(t - 1));
                            }
                            if listed.contains(t - 1) {
                                let y = choose|y: int| 0 <= y < listed.len() && listed[y] == t - 1;
                                assert(0 <= y < absorbed_prefixes.len() && listed[y] == t - 1);
                            }
                        }
                    }
                } else {
                    assert forall|t: int| 0 <= t < before.size implies now.edges[s][t] == goal[s][t] by {}
                }
            }
            assert(now.edges =~= goal);
        }
    }

    /// Builds the hypothesis of the tables.
    pub fn build_nfa(&self) -> (nfa: AutomataImpl)
        requires
            self.wf(),
            self.main_table.basic_prefixes.len() < usize::MAX,
        ensures
            nfa@ == self@.hypothesis(),
            nfa@.wf(),
    {
        let count: usize = self.main_table.basic_prefixes.len();
        let ghost table = self.main_table@;
        let ghost goal = self@.hypothesis();
        let mut automata = AutomataImpl::new(count + 1);
        let prefix_to_index = self.enumerate_basic_prefixes();
        assert(table.rows[0] == self.main_table.prefix_to_membership_suffixes[0]@);
        assert(table.rows[0].len() == table.suffixes.len());
        self.link_absorbed(&mut automata, START, &self.main_table.prefix_to_membership_suffixes[0], "");
        proof {
            reveal_strlit("");
            assert(""@ =~= Seq::<char>::empty());
            assert forall|t: int| 0 <= t <= count implies automata@.edges[0][t] == goal.edges[0][t] by {}
        }
        let alphabet: &str = self.extended_table.alphabet.as_str();
        let letters: usize = alphabet.unicode_len();
        let mut k: usize = 0;
        while k < count
            invariant
                self.wf(),
                table == self.main_table@,
                goal == self@.hypothesis(),
                count == self.main_table.basic_prefixes.len(),
                count < usize::MAX,
                alphabet@ == self.mat.alphabet(),
                letters == alphabet@.len(),
                prefix_to_index.len() == count,
                forall|a: int| 0 <= a < count ==> prefix_to_index[a] == a + 1,
                k <= count,
                automata@.well_sized(),
                automata@.single_start(),
                automata@.size == count + 1,
                forall|s: int| 0 <= s <= count ==> !automata@.finals[s],
                forall|s: int, t: int| 0 <= s <= k && 0 <= t <= count ==> automata@.edges[s][t] == goal.edges[s][t],
                forall|s: int, t: int| k < s <= count && 0 <= t <= count ==> automata@.edges[s][t] is None,
            decreases count - k,
        {
            let state: usize = prefix_to_index[k];
            let b: usize = self.main_table.basic_prefixes[k];
            assert(table.basic[k as int] == b);
            let mut a: usize = 0;
            while a < letters
                invariant
                    self.wf(),
                    table == self.main_table@,
                    goal == self@.hypothesis(),
                    count == self.main_table.basic_prefixes.len(),
                    count < usize::MAX,
                    alphabet@ == self.mat.alphabet(),
                    letters == alphabet@.len(),
                    k < count,
                    state == k + 1,
                    b == table.basic[k as int],
                    b < self.main_table.prefixes.len(),
                    a <= letters,
                    automata@.well_sized(),
                    automata@.single_start(),
                    automata@.size == count + 1,
                    forall|s: int| 0 <= s <= count ==> !automata@.finals[s],
                    forall|s: int, t: int| 0 <= s <= k && 0 <= t <= count ==> automata@.edges[s][t] == goal.edges[s][t],
                    forall|s: int, t: int| k + 1 < s <= count && 0 <= t <= count ==> automata@.edges[s][t] is None,
                    automata@.edges[state as int][0] is None,
                    forall|t: int|
                        1 <= t <= count ==> #[trigger] automata@.edges[state as int][t] == match self@.last_letter(
                            k as int,
                            t - 1,
                            a as int,
                        ) {
                            Some(c) => Some(seq![self.mat.alphabet()[c]]),
                            None => None,
                        },
                decreases letters - a,
            {
                let ghost mid = automata@;
                let e: usize = self.extension_position(b, a);
                let ghost source = self@.extension_row(b as int, a as int);
                assert(self.extended_table@.rows[e as int] == self.extended_table.prefix_to_membership_suffixes[e as int]@);
                assert(self.extended_table@.rows[e as int].len() == self.extended_table@.suffixes.len());
                let letter: &str = alphabet.substring_char(a, a + 1);
                assert(letter@ =~= seq![self.mat.alphabet()[a as int]]);
                self.link_absorbed(&mut automata, state, &self.extended_table.prefix_to_membership_suffixes[e], letter);
                proof {
                    let now = automata@;
                    assert forall|t: int| 1 <= t <= count implies #[trigger] now.edges[state as int][t]
                        == match self@.last_letter(k as int, t - 1, a + 1) {
                        Some(c) => Some(seq![self.mat.alphabet()[c]]),
                        None => None,
                    } by {
                        assert(mid.edges[state as int][t] == match self@.last_letter(k as int, t - 1, a as int) {
                            Some(c) => Some(seq![self.mat.alphabet()[c]]),
                            None => None,
                        });
                    }
                    assert forall|s: int, t: int| 0 <= s <= k && 0 <= t <= count implies now.edges[s][t]
                        == goal.edges[s][t] by {
                        assert(mid.edges[s][t] == goal.edges[s][t]);
                    }
                    assert forall|s: int, t: int| k + 1 < s <= count && 0 <= t <= count implies now.edges[s][t] is None by {
                        assert(mid.edges[s][t] is None);
                    }
                }
                a += 1;
            }
            proof {
                assert forall|t: int| 0 <= t <= count implies automata@.edges[state as int][t]
                    == goal.edges[state as int][t] by {}
            }
            k += 1;
        }
        let ghost wired = automata@;
        let mut f: usize = 0;
        while f < count
            invariant
                self.wf(),
                table == self.main_table@,
                count == self.main_table.basic_prefixes.len(),
                count < usize::MAX,
                prefix_to_index.len() == count,
                forall|a: int| 0 <= a < count ==> prefix_to_index[a] == a + 1,
                f <= count,
                automata@.well_sized(),
                automata@.size == count + 1,
                automata@.edges == wired.edges,
                automata@.starts == wired.starts,
                !automata@.finals[0],
                forall|s: int| 1 <= s <= f ==> automata@.finals[s] == table.rows[table.basic[s - 1]][0],
                forall|s: int| f < s <= count ==> !automata@.finals[s],
            decreases count - f,
        {
            let b: usize = self.main_table.basic_prefixes[f];
            assert(table.basic[f as int] == b);
            assert(self.main_table.suffix_to_membership_prefixes[0][b as int] == table.rows[b as int][0]);
            if self.main_table.suffix_to_membership_prefixes[0][b] {
                automata.set_final(prefix_to_index[f]);
            }
            f += 1;
        }
        proof {
            let made = automata@;
            assert(made.edges.len() == goal.edges.len());
            assert forall|s: int| 0 <= s < made.edges.len() implies #[trigger] made.edges[s] =~= goal.edges[s] by {
                assert(made.edges[s].len() == count + 1);
                assert forall|t: int| 0 <= t <= count implies made.edges[s][t] == goal.edges[s][t] by {
                    assert(wired.edges[s][t] == goal.edges[s][t]);
                }
            }
            assert(made.edges =~= goal.edges);
            assert(made.starts =~= goal.starts);
            assert(made.finals =~= goal.finals);
            assert(made.short_labels()) by {
                assert forall|s: int, t: int|
                    0 <= s < made.edges.len() && 0 <= t < made.edges[s].len() implies match #[trigger] made.edges[s][t] {
                        Some(label) => label.len() <= 1,
                        None => true,
                    } by {
                    assert(made.edges[s].len() == count + 1);
                    assert(made.edges[s][t] == self@.label(s, t));
                }
            }
        }
        automata
    }
}

} // verus!
