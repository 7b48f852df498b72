use std::cell::Cell;

use nl_learner::automata::{Automata, AutomataImpl};
use nl_learner::languages::BaBStar;
use nl_learner::mat::{accepts_output, EquivalenceCheckResult, Mat, MatImpl, Oracle, WordGenerator};

/// An oracle that accepts every word and counts its queries.
struct CountingOracle {
    queries: Cell<usize>,
}

impl Oracle for CountingOracle {
    fn decide(&self, _word: &str) -> bool {
        self.queries.set(self.queries.get() + 1);
        true
    }
}

/// An oracle that rejects every word and counts its queries.
struct RejectingOracle {
    queries: Cell<usize>,
}

impl Oracle for RejectingOracle {
    fn decide(&self, _word: &str) -> bool {
        self.queries.set(self.queries.get() + 1);
        false
    }
}

/// A hypothesis that accepts every word and counts its queries.
struct CountingHypothesis {
    queries: Cell<usize>,
}

impl Automata for CountingHypothesis {
    fn check_membership(&self, _word: &str) -> bool {
        self.queries.set(self.queries.get() + 1);
        true
    }

    fn determinize(&self) -> AutomataImpl {
        AutomataImpl::new(1)
    }

    fn to_regex(&self) -> Option<String> {
        None
    }
}

fn counterexample(result: EquivalenceCheckResult) -> Option<String> {
    match result {
        EquivalenceCheckResult::Equivalent => None,
        EquivalenceCheckResult::Counterexample(word) => Some(word),
    }
}

#[test]
fn generator_hands_out_words_by_length_and_alphabet_order() {
    let mut generator = WordGenerator::new();
    let mut words = Vec::new();
    for _ in 0..15 {
        words.push(generator.get_next_word("ab"));
    }
    assert_eq!(
        words,
        vec!["", "a", "b", "aa", "ab", "ba", "bb", "aaa", "aab", "aba", "abb", "baa", "bab", "bba", "bbb"]
    );
}

#[test]
fn generator_frontier_grows_by_the_size_of_the_alphabet() {
    let mut generator = WordGenerator::new();
    assert_eq!(generator.words, vec![""]);
    assert_eq!(generator.next, 0);
    assert_eq!(generator.get_next_word("xyz"), "");
    assert_eq!(generator.words, vec!["x", "y", "z"]);
    assert_eq!(generator.next, 0);
    assert_eq!(generator.get_next_word("xyz"), "x");
    assert_eq!(generator.next, 1);
    assert_eq!(generator.get_next_word("xyz"), "y");
    assert_eq!(generator.get_next_word("xyz"), "z");
    assert_eq!(generator.words, vec!["xx", "xy", "xz", "yx", "yy", "yz", "zx", "zy", "zz"]);
    assert_eq!(generator.next, 0);
}

#[test]
fn teacher_keeps_what_it_was_made_with() {
    let mat = MatImpl::new("ab", BaBStar, 7, 9);
    assert_eq!(mat.get_alphabet(), "ab");
    assert_eq!(mat.max_tests, 7);
    assert_eq!(mat.word_max_len, 9);
    assert!(mat.check_membership("ba"));
    assert!(!mat.check_membership("ab"));
}

#[test]
fn exhausted_budget_means_equivalent_after_exactly_that_many_queries() {
    let mat = MatImpl::new("ab", CountingOracle { queries: Cell::new(0) }, 25, 100);
    let hypothesis = CountingHypothesis { queries: Cell::new(0) };
    let mut generator = WordGenerator::new();
    let result = mat.check_equivalence(&mut generator, &hypothesis);
    assert_eq!(counterexample(result), None);
    assert_eq!(mat.oracle.queries.get(), 25);
    assert_eq!(hypothesis.queries.get(), 25);
}

#[test]
fn no_budget_means_no_query() {
    let mat = MatImpl::new("ab", CountingOracle { queries: Cell::new(0) }, 0, 100);
    let hypothesis = CountingHypothesis { queries: Cell::new(0) };
    let mut generator = WordGenerator::new();
    assert_eq!(counterexample(mat.check_equivalence(&mut generator, &hypothesis)), None);
    assert_eq!(mat.oracle.queries.get(), 0);
    assert_eq!(hypothesis.queries.get(), 0);
    assert_eq!(generator.get_next_word("ab"), "");
}

#[test]
fn first_accepted_word_that_the_hypothesis_rejects_is_the_counterexample() {
    let mat = MatImpl::new("ab", BaBStar, 100, 10);
    let nothing = AutomataImpl::new(1);
    let mut generator = WordGenerator::new();
    let result = mat.check_equivalence(&mut generator, &nothing);
    assert_eq!(counterexample(result), Some("ba".to_string()));
    assert_eq!(generator.get_next_word("ab"), "bb");
}

#[test]
fn a_word_that_only_the_hypothesis_accepts_is_no_counterexample() {
    let mat = MatImpl::new("ab", BaBStar, 7, 10);
    let mut everything = AutomataImpl::new(1);
    everything.transitions[0][0] = Some("a".to_string());
    everything.finite_states[0] = true;
    let mut generator = WordGenerator::new();
    // "", a, b, aa, ab: none is in the language; ba is, and the hypothesis rejects it
    assert_eq!(counterexample(mat.check_equivalence(&mut generator, &everything)), Some("ba".to_string()));
    let mat = MatImpl::new("ab", BaBStar, 5, 10);
    let mut generator = WordGenerator::new();
    assert_eq!(counterexample(mat.check_equivalence(&mut generator, &everything)), None);
}

#[test]
fn reaching_the_length_bound_means_equivalent() {
    let mat = MatImpl::new("ab", BaBStar, 100, 2);
    let nothing = AutomataImpl::new(1);
    let mut generator = WordGenerator::new();
    let result = mat.check_equivalence(&mut generator, &nothing);
    assert_eq!(counterexample(result), None);
    // the word of two characters that ended the search was drawn
    assert_eq!(generator.get_next_word("ab"), "ab");
}

#[test]
fn the_generator_goes_on_where_the_last_query_stopped() {
    let mat = MatImpl::new("ab", BaBStar, 3, 10);
    let nothing = AutomataImpl::new(1);
    let mut generator = WordGenerator::new();
    assert_eq!(counterexample(mat.check_equivalence(&mut generator, &nothing)), None);
    assert_eq!(counterexample(mat.check_equivalence(&mut generator, &nothing)), Some("ba".to_string()));
}

#[test]
fn hypothesis_and_oracle_are_both_asked_about_every_word() {
    let mat = MatImpl::new("ab", RejectingOracle { queries: Cell::new(0) }, 25, 100);
    let hypothesis = CountingHypothesis { queries: Cell::new(0) };
    let mut generator = WordGenerator::new();
    let result = mat.check_equivalence(&mut generator, &hypothesis);
    assert_eq!(counterexample(result), None);
    assert_eq!(mat.oracle.queries.get(), 25);
    assert_eq!(hypothesis.queries.get(), 25);
}

#[test]
fn a_word_at_the_length_bound_is_asked_of_nobody() {
    let mat = MatImpl::new("ab", CountingOracle { queries: Cell::new(0) }, 25, 2);
    let hypothesis = CountingHypothesis { queries: Cell::new(0) };
    let mut generator = WordGenerator::new();
    assert_eq!(counterexample(mat.check_equivalence(&mut generator, &hypothesis)), None);
    // "", a and b were asked; aa ended the search
    assert_eq!(mat.oracle.queries.get(), 3);
    assert_eq!(hypothesis.queries.get(), 3);
}

#[test]
fn only_a_one_on_a_line_of_its_own_accepts() {
    assert!(accepts_output("1\n"));
    assert!(!accepts_output("1"));
    assert!(!accepts_output("0\n"));
    assert!(!accepts_output(""));
    assert!(!accepts_output("1\n\n"));
    assert!(!accepts_output(" 1\n"));
    assert!(!accepts_output("11"));
}
