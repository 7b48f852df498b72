//! The refinement loop: complete the tables, make them consistent, build a
//! hypothesis and put it to the teacher, until the teacher finds no
//! counterexample.
use vstd::prelude::*;
use vstd::string::*;

use crate::automata::AutomataImpl;
use crate::automata::subset::determinizes;
use crate::mat::{verdicts_of, EquivalenceCheckResult, Mat};
use crate::nl::extended_table::with_extensions;
use crate::nl::{
    extended_with_prefixes, extended_with_suffix, main_with, main_with_prefixes, main_with_suffix,
    CompletenessCheckResult, ConsistencyCheckResult, NlImpl,
};

verus! {

/// A learner of a regular language.
pub trait Nl {
    /// The learner is in a state from which it can go on; nothing is known
    /// of it where a learner does not say what it is.
    open spec fn valid(&self) -> bool {
        arbitrary()
    }

    /// The learner came from this state to `next` with the result `nfa` in
    /// at most `rounds` rounds; nothing is known of it where a learner does
    /// not say what it is.
    open spec fn learned(&self, next: &Self, rounds: usize, nfa: Option<AutomataImpl>) -> bool {
        arbitrary()
    }

    /// Refines the learner for at most `rounds` rounds, and returns the
    /// hypothesis in which the teacher found no fault; `None` where the
    /// rounds ran out first.
    fn get_nfa(&mut self, rounds: usize) -> (nfa: Option<AutomataImpl>)
        requires
            old(self).valid(),
        ensures
            final(self).valid(),
            old(self).learned(final(self), rounds, nfa),
            match nfa {
                Some(automata) => automata@.wf(),
                None => true,
            },
    ;
}

impl<'a, M: Mat> NlImpl<'a, M> {
    /// Both tables are as in `other`.
    pub open spec fn same_tables(&self, other: &Self) -> bool {
        self.main_table == other.main_table && self.extended_table == other.extended_table
    }

    /// One round of refinement leads from this learner to `next` with the
    /// result `learned`. Where a row of the extended table is not covered,
    /// its prefix is inserted and there is no result. Else, where the
    /// tables are not consistent, the distinguishing suffix is inserted and
    /// there is no result. Else, where the basic prefixes leave no number
    /// for the start state, nothing changes and there is no result. Else a
    /// deterministic form of the hypothesis is put to the teacher, with what
    /// `asked` says of the result.
    pub open spec fn refined_to(&self, next: &Self, learned: Option<AutomataImpl>) -> bool {
        &&& next.mat == self.mat
        &&& match self@.uncovered_prefix() {
            Some(prefix) => {
                &&& learned is None
                &&& next.generator == self.generator
                &&& next.main_table@ == main_with(self.main_table@, self.mat, prefix)
                &&& next.extended_table@ == with_extensions(
                    self.extended_table@,
                    self.mat,
                    prefix,
                    self.mat.alphabet(),
                    self.mat.alphabet().len() as int,
                )
            },
            None => match self@.distinguishing_suffix() {
                Some(suffix) => {
                    &&& learned is None
                    &&& next.generator == self.generator
                    &&& next.main_table@ == main_with_suffix(self.main_table@, self.mat, suffix)
                    &&& next.extended_table@ == extended_with_suffix(self.extended_table@, self.mat, suffix)
                },
                None => if self.main_table.basic_prefixes.len() == usize::MAX {
                    learned is None && *next == *self
                } else {
                    exists|dfa: AutomataImpl| #[trigger] self.asked(next, learned, dfa)
                },
            },
        }
    }

    /// The round put the deterministic form `dfa` of the hypothesis to the
    /// teacher, from the state of the generator as it was. Where the
    /// equivalence query held no counterexample, the hypothesis is the
    /// result and the tables stay; else there is no result, and the proper
    /// prefixes of the counterexample were inserted. The generator is left
    /// as the query left it.
    pub open spec fn asked(&self, next: &Self, learned: Option<AutomataImpl>, dfa: AutomataImpl) -> bool {
        let outcome = self.mat.outcome(verdicts_of(dfa), self.generator@);
        &&& dfa@ == self@.hypothesis().determinized()
        &&& determinizes(self@.hypothesis(), dfa@)
        &&& next.generator@ == outcome.frontier
        &&& match outcome.counterexample {
            None => {
                &&& learned is Some
                &&& learned->0@ == self@.hypothesis()
                &&& learned->0@.wf()
                &&& next.same_tables(self)
            },
            Some(word) => {
                &&& learned is None
                &&& self.mat.accepts(word)
                &&& next.main_table@ == main_with_prefixes(self.main_table@, self.mat, word, word.len() - 1)
                &&& next.extended_table@ == extended_with_prefixes(self.extended_table@, self.mat, word, word.len() - 1)
            },
        }
    }

    /// The learner went from `start` to `end` through the states `trace`,
    /// one round of refinement from each to the next, and came to the result
    /// `nfa`: no round before the last had a result, the last had the
    /// result `nfa`, and without a result all of the `rounds` rounds were
    /// made.
    pub open spec fn learning(start: &Self, end: &Self, rounds: usize, nfa: Option<AutomataImpl>, trace: Seq<Self>) -> bool {
        &&& trace.len() >= 1
        &&& trace.len() - 1 <= rounds
        &&& trace[0] == *start
        &&& trace.last() == *end
        &&& forall|i: int|
            0 <= i < trace.len() - 1 ==> (#[trigger] trace[i]).refined_to(
                &trace[i + 1],
                if i == trace.len() - 2 {
                    nfa
                } else {
                    None
                },
            )
        &&& nfa is None ==> trace.len() - 1 == rounds
        &&& nfa is Some ==> trace.len() >= 2
    }

    /// Takes the answer of the teacher to the hypothesis `nfa`. Where the
    /// teacher found no counterexample the hypothesis is the result and the
    /// tables stay; else every proper prefix of the counterexample but the
    /// empty one is inserted, and there is no result yet.
    pub fn settle(&mut self, nfa: AutomataImpl, answer: EquivalenceCheckResult) -> (learned: Option<AutomataImpl>)
        requires
            old(self).wf(),
        ensures
            final(self).wf(),
            final(self).mat == old(self).mat,
            final(self).generator == old(self).generator,
            match answer.counterexample() {
                None => learned == Some(nfa) && final(self).same_tables(old(self)),
                Some(word) => learned is None && final(self).main_table@ == main_with_prefixes(
                    old(self).main_table@,
                    old(self).mat,
                    word,
                    word.len() - 1,
                ) && final(self).extended_table@ == extended_with_prefixes(
                    old(self).extended_table@,
                    old(self).mat,
                    word,
                    word.len() - 1,
                ),
            },
    {
        match answer {
            EquivalenceCheckResult::Counterexample(word) => {
                self.insert_prefix_recursive(word.as_str());
                None
            },
            EquivalenceCheckResult::Equivalent => Some(nfa),
        }
    }

    /// One round of refinement. Where a row of the extended table is not
    /// covered, its prefix is inserted. Else, where the tables are not
    /// consistent, the distinguishing suffix is inserted. Else the
    /// hypothesis is built and its deterministic form is put to the
    /// teacher: without a counterexample the hypothesis is the result, with
    /// one the prefixes of the counterexample are inserted. There is no
    /// result either where the basic prefixes leave no number for the start
    /// state.
    pub fn refine(&mut self) -> (learned: Option<AutomataImpl>)
        requires
            old(self).wf(),
        ensures
            final(self).wf(),
            old(self).refined_to(final(self), learned),
    {
        match self.check_completeness() {
            CompletenessCheckResult::UncoveredPrefix(prefix) => {
                self.insert_prefix(prefix.as_str());
                return None;
            },
            CompletenessCheckResult::Complete => {},
        }
        match self.check_consistency() {
            ConsistencyCheckResult::DistinguishingSuffix(suffix) => {
                self.insert_suffix(suffix.as_str());
                return None;
            },
            ConsistencyCheckResult::Consistent => {},
        }
        if self.main_table.basic_prefixes.len() == usize::MAX {
            return None;
        }
        let nfa = self.build_nfa();
        let dfa = nfa.determinize();
        let answer = self.mat.check_equivalence(&mut self.generator, &dfa);
        let learned = self.settle(nfa, answer);
        assert(old(self).asked(self, learned, dfa));
        learned
    }

    /// Refines the tables round by round, until a round has a result or
    /// `rounds` rounds are made. The result is the hypothesis of the tables
    /// as they are left, which are then complete and consistent, and in
    /// which an equivalence query found no fault. `None` says that every
    /// one of the rounds was made and none had a result.
    pub fn get_nfa(&mut self, rounds: usize) -> (nfa: Option<AutomataImpl>)
        requires
            old(self).wf(),
        ensures
            final(self).wf(),
            final(self).mat == old(self).mat,
            rounds == 0 ==> nfa is None && *final(self) == *old(self),
            exists|trace: Seq<Self>| Self::learning(old(self), final(self), rounds, nfa, trace),
            match nfa {
                Some(automata) => {
                    &&& automata@ == final(self)@.hypothesis()
                    &&& automata@.wf()
                    &&& final(self)@.uncovered_prefix() is None
                    &&& final(self)@.distinguishing_suffix() is None
                },
                None => true,
            },
    {
        let mut left: usize = rounds;
        let ghost mut trace: Seq<Self> = seq![*self];
        while left > 0
            invariant
                self.wf(),
                self.mat == old(self).mat,
                left <= rounds,
                trace.len() == rounds - left + 1,
                trace[0] == *old(self),
                trace.last() == *self,
                forall|i: int|
                    0 <= i < trace.len() - 1 ==> (#[trigger] trace[i]).refined_to(&trace[i + 1], None::<AutomataImpl>),
            decreases left,
        {
            left -= 1;
            let ghost before = *self;
            let ghost made = trace;
            let learned = self.refine();
            proof {
                trace = made.push(*self);
                assert forall|i: int| 0 <= i < trace.len() - 1 implies (#[trigger] trace[i]).refined_to(
                    &trace[i + 1],
                    if i == trace.len() - 2 {
                        learned
                    } else {
                        None
                    },
                ) by {
                    if i < made.len() - 1 {
                        assert(trace[i] == made[i]);
                        assert(trace[i + 1] == made[i + 1]);
                        assert(made[i].refined_to(&made[i + 1], None::<AutomataImpl>));
                    } else {
                        assert(trace[i] == before);
                        assert(trace[i + 1] == *self);
                    }
                }
            }
            match learned {
                Some(automata) => {
                    assert(self@ == before@);
                    assert(Self::learning(old(self), self, rounds, Some(automata), trace));
                    return Some(automata);
                },
                None => {},
            }
        }
        assert(Self::learning(old(self), self, rounds, None, trace));
        None
    }
}

impl<'a, M: Mat> Nl for NlImpl<'a, M> {
    open spec fn valid(&self) -> bool {
        self.wf()
    }

    open spec fn learned(&self, next: &Self, rounds: usize, nfa: Option<AutomataImpl>) -> bool {
        exists|trace: Seq<Self>| Self::learning(self, next, rounds, nfa, trace)
    }

    fn get_nfa(&mut self, rounds: usize) -> (nfa: Option<AutomataImpl>)
        ensures
            final(self).mat == old(self).mat,
            rounds == 0 ==> nfa is None && *final(self) == *old(self),
            exists|trace: Seq<Self>| Self::learning(old(self), final(self), rounds, nfa, trace),
            match nfa {
                Some(automata) => {
                    &&& automata@ == final(self)@.hypothesis()
                    &&& final(self)@.uncovered_prefix() is None
                    &&& final(self)@.distinguishing_suffix() is None
                },
                None => true,
            },
    {
        NlImpl::get_nfa(self, rounds)
    }
}

} // verus!
