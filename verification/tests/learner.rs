use nl_learner::automata::AutomataImpl;
use nl_learner::languages::{decide_a_n_b_n, decide_b_a_b_star, AnBn, BaBStar};
use nl_learner::mat::MatImpl;
use nl_learner::nl::{CompletenessCheckResult, ConsistencyCheckResult, NlImpl};

fn label(text: &str) -> Option<String> {
    Some(text.to_string())
}

/// All words over `alphabet` of at most `max_len` characters.
fn words(alphabet: &str, max_len: usize) -> Vec<String> {
    let mut all = vec![String::new()];
    let mut frontier = vec![String::new()];
    for _ in 0..max_len {
        let mut next = Vec::new();
        for word in &frontier {
            for letter in alphabet.chars() {
                next.push(format!("{word}{letter}"));
            }
        }
        all.extend(next.iter().cloned());
        frontier = next;
    }
    all
}

fn uncovered(result: CompletenessCheckResult) -> Option<String> {
    match result {
        CompletenessCheckResult::Complete => None,
        CompletenessCheckResult::UncoveredPrefix(prefix) => Some(prefix),
    }
}

fn distinguishing(result: ConsistencyCheckResult) -> Option<String> {
    match result {
        ConsistencyCheckResult::Consistent => None,
        ConsistencyCheckResult::DistinguishingSuffix(suffix) => Some(suffix),
    }
}

#[test]
fn new_learner_has_asked_about_the_empty_and_the_one_letter_words() {
    let mat = MatImpl::new("ab", BaBStar, 200, 7);
    let nl = NlImpl::new(&mat);
    assert_eq!(nl.main_table.prefixes, vec![""]);
    assert_eq!(nl.main_table.suffixes, vec![""]);
    assert_eq!(nl.extended_table.prefixes, vec!["a", "b"]);
    assert_eq!(nl.extended_table.suffixes, vec![""]);
    assert_eq!(nl.generator.words, vec![""]);
}

#[test]
fn first_hypothesis_of_b_a_b_star() {
    let mat = MatImpl::new("ab", BaBStar, 200, 7);
    let nl = NlImpl::new(&mat);
    assert_eq!(uncovered(nl.check_completeness()), None);
    assert_eq!(distinguishing(nl.check_consistency()), None);
    assert_eq!(nl.enumerate_basic_prefixes(), vec![1]);
    let nfa = nl.build_nfa();
    assert_eq!(nfa.size, 2);
    assert_eq!(nfa.start_states, vec![true, false]);
    assert_eq!(nfa.finite_states, vec![false, false]);
    // both characters lead the empty prefix to itself: the cell keeps the last
    assert_eq!(nfa.transitions, vec![vec![None, label("")], vec![None, label("b")]]);
}

#[test]
fn prefixes_of_a_counterexample_go_into_both_tables() {
    let mat = MatImpl::new("ab", BaBStar, 200, 7);
    let mut nl = NlImpl::new(&mat);
    nl.insert_prefix_recursive("babb");
    assert_eq!(nl.main_table.prefixes, vec!["", "b", "ba", "bab"]);
    assert_eq!(nl.extended_table.prefixes, vec!["a", "b", "ba", "bb", "baa", "bab", "baba", "babb"]);
    nl.insert_prefix_recursive("b");
    nl.insert_prefix_recursive("");
    assert_eq!(nl.main_table.prefixes, vec!["", "b", "ba", "bab"]);
}

#[test]
fn an_uncovered_row_is_found_and_mended() {
    let mat = MatImpl::new("ab", BaBStar, 200, 7);
    let mut nl = NlImpl::new(&mat);
    nl.insert_prefix("b");
    // the extension ba holds the empty suffix, and no basic prefix does
    assert_eq!(uncovered(nl.check_completeness()), Some("ba".to_string()));
    nl.insert_prefix("ba");
    assert_eq!(uncovered(nl.check_completeness()), None);
}

#[test]
fn a_distinguishing_suffix_is_found_and_mended() {
    let mat = MatImpl::new("ab", BaBStar, 200, 7);
    let mut nl = NlImpl::new(&mat);
    nl.insert_prefix("b");
    nl.insert_prefix("ba");
    // the rows of the empty prefix and of b are both empty, yet behind a
    // only b holds the empty suffix
    assert_eq!(distinguishing(nl.check_consistency()), Some("a".to_string()));
    nl.insert_suffix("a");
    assert_eq!(nl.main_table.suffixes, vec!["", "a"]);
    assert_eq!(nl.extended_table.suffixes, vec!["", "a"]);
    assert_eq!(distinguishing(nl.check_consistency()), Some("ba".to_string()));
    nl.insert_suffix("ba");
    assert_eq!(distinguishing(nl.check_consistency()), None);
}

#[test]
fn one_round_makes_one_change() {
    let mat = MatImpl::new("ab", BaBStar, 200, 7);
    let mut nl = NlImpl::new(&mat);
    // the first hypothesis accepts nothing: ba is the counterexample
    assert_eq!(nl.refine(), None);
    assert_eq!(nl.main_table.prefixes, vec!["", "b"]);
    assert_eq!(nl.main_table.suffixes, vec![""]);
    assert_eq!(nl.refine(), None);
    assert_eq!(nl.main_table.prefixes, vec!["", "b", "ba"]);
    assert_eq!(nl.refine(), None);
    assert_eq!(nl.main_table.suffixes, vec!["", "a"]);
    assert_eq!(nl.refine(), None);
    assert_eq!(nl.main_table.suffixes, vec!["", "a", "ba"]);
    let nfa = nl.refine().unwrap();
    assert_eq!(nl.main_table.prefixes, vec!["", "b", "ba"]);
    assert_eq!(nl.main_table.suffixes, vec!["", "a", "ba"]);
    assert_eq!(nl.main_table.basic_prefixes, vec![0, 2, 1]);
    assert_eq!(nfa, nl.build_nfa());
}

#[test]
fn learns_b_a_b_star() {
    let mat = MatImpl::new("ab", BaBStar, 200, 7);
    let mut nl = NlImpl::new(&mat);
    let nfa = nl.get_nfa(100).unwrap();
    assert_eq!(nfa.size, 4);
    assert_eq!(
        nfa.transitions,
        vec![
            vec![None, label(""), None, None],
            vec![None, None, None, label("b")],
            vec![None, None, label("b"), None],
            vec![None, None, label("a"), None],
        ]
    );
    assert_eq!(nfa.finite_states, vec![false, false, true, false]);
    let dfa = nfa.determinize();
    assert_eq!(dfa.size, 3);
    for word in words("ab", 8) {
        assert_eq!(dfa.check_membership(&word), decide_b_a_b_star(&word), "word {word:?}");
    }
    assert_eq!(uncovered(nl.check_completeness()), None);
    assert_eq!(distinguishing(nl.check_consistency()), None);
}

#[test]
fn learns_a_n_b_n_up_to_the_length_bound() {
    let mat = MatImpl::new("ab", AnBn, 100, 5);
    let mut nl = NlImpl::new(&mat);
    let dfa = nl.get_nfa(100).unwrap().determinize();
    for word in words("ab", 4) {
        assert_eq!(dfa.check_membership(&word), decide_a_n_b_n(&word), "word {word:?}");
    }
}

#[test]
fn refinement_of_b_a_b_star_ends_within_classes_times_letters_rounds() {
    // four classes of words, two characters
    let mat = MatImpl::new("ab", BaBStar, 200, 7);
    let mut nl = NlImpl::new(&mat);
    assert!(nl.get_nfa(8).is_some());
    let mut nl = NlImpl::new(&mat);
    assert!(nl.get_nfa(4).is_none());
    assert!(nl.get_nfa(1).is_some());
}

#[test]
fn no_rounds_no_hypothesis_and_no_change() {
    let mat = MatImpl::new("ab", BaBStar, 200, 7);
    let mut nl = NlImpl::new(&mat);
    assert_eq!(nl.get_nfa(0), None::<AutomataImpl>);
    assert_eq!(nl.main_table.prefixes, vec![""]);
    assert_eq!(nl.extended_table.prefixes, vec!["a", "b"]);
    assert_eq!(nl.generator.next, 0);
}

#[test]
fn a_weak_teacher_lets_a_wrong_hypothesis_pass() {
    // one test per query: only the empty word is ever tried
    let mat = MatImpl::new("ab", BaBStar, 1, 7);
    let mut nl = NlImpl::new(&mat);
    let nfa = nl.get_nfa(10).unwrap();
    assert!(!nfa.determinize().check_membership("ba"));
}
