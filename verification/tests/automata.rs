use nl_learner::automata::AutomataImpl;

fn label(text: &str) -> Option<String> {
    Some(text.to_string())
}

/// The deterministic automaton of `b a b*`.
fn bab_star() -> AutomataImpl {
    let mut automata = AutomataImpl::new(3);
    automata.transitions[0][1] = label("b");
    automata.transitions[1][2] = label("a");
    automata.transitions[2][2] = label("b");
    automata.finite_states[2] = true;
    automata
}

/// Whether the automaton, read as a nondeterministic one with silent moves,
/// accepts the word.
fn accepts(automata: &AutomataImpl, word: &str) -> bool {
    let close = |states: &mut Vec<bool>| {
        let mut changed = true;
        while changed {
            changed = false;
            for i in 0..automata.size {
                for j in 0..automata.size {
                    if states[i] && !states[j] && automata.transitions[i][j] == Some(String::new()) {
                        states[j] = true;
                        changed = true;
                    }
                }
            }
        }
    };
    let mut states = vec![false; automata.size];
    states[0] = true;
    for letter in word.chars() {
        close(&mut states);
        let mut next = vec![false; automata.size];
        for i in 0..automata.size {
            for j in 0..automata.size {
                if states[i] && automata.transitions[i][j] == Some(letter.to_string()) {
                    next[j] = true;
                }
            }
        }
        states = next;
    }
    close(&mut states);
    (0..automata.size).any(|q| states[q] && automata.finite_states[q])
}

/// All words over `alphabet` of at most `max_len` characters.
fn words(alphabet: &str, max_len: usize) -> Vec<String> {
    let mut all = vec![String::new()];
    let mut frontier = vec![String::new()];
    for _ in 0..max_len {
        let mut next = Vec::new();
        for word in &frontier {
            for letter in alphabet.chars() {
                next.push(format!("{word}{letter}"));
            }
        }
        all.extend(next.iter().cloned());
        frontier = next;
    }
    all
}

#[test]
fn new_automaton_has_one_start_state_and_no_edges() {
    let automata = AutomataImpl::new(3);
    assert_eq!(automata.size, 3);
    assert_eq!(automata.start_states, vec![true, false, false]);
    assert_eq!(automata.finite_states, vec![false, false, false]);
    assert_eq!(automata.transitions, vec![vec![None; 3]; 3]);
}

#[test]
fn deterministic_walk_decides_bab_star() {
    let automata = bab_star();
    assert!(!automata.check_membership("b"));
    assert!(automata.check_membership("ba"));
    assert!(automata.check_membership("babb"));
    assert!(!automata.check_membership("a"));
    assert!(!automata.check_membership(""));
    assert!(!automata.check_membership("bab a"));
}

#[test]
fn walk_takes_the_lowest_numbered_matching_edge() {
    let mut automata = AutomataImpl::new(3);
    automata.transitions[0][1] = label("a");
    automata.transitions[0][2] = label("a");
    automata.finite_states[2] = true;
    assert!(!automata.check_membership("a"));
    automata.finite_states[1] = true;
    assert!(automata.check_membership("a"));
}

#[test]
fn closure_follows_silent_edges_only() {
    let mut automata = AutomataImpl::new(4);
    automata.transitions[0][1] = label("");
    automata.transitions[1][2] = label("");
    automata.transitions[2][0] = label("");
    automata.transitions[2][3] = label("a");
    assert_eq!(automata.get_state_epsilon_closure(0), vec![true, true, true, false]);
    assert_eq!(automata.get_state_epsilon_closure(3), vec![false, false, false, true]);
    assert_eq!(
        automata.get_epsilon_closure(&vec![false, false, true, true]),
        vec![true, true, true, true]
    );
    assert_eq!(
        automata.get_epsilon_closure(&vec![false, false, false, false]),
        vec![false, false, false, false]
    );
}

#[test]
fn determinizing_a_silent_self_loop_on_the_start_state_ends() {
    let mut nfa = AutomataImpl::new(2);
    nfa.transitions[0][0] = label("");
    nfa.transitions[0][1] = label("");
    nfa.transitions[1][1] = label("a");
    nfa.finite_states[1] = true;
    let dfa = nfa.determinize();
    assert!(dfa.finite_states[0]);
    assert_eq!(dfa.check_membership(""), accepts(&nfa, ""));
    assert!(dfa.check_membership(""));
    assert!(dfa.check_membership("aaa"));
    assert!(!dfa.check_membership("ab"));
}

#[test]
fn determinizing_numbers_the_subsets_in_order_of_discovery() {
    let mut nfa = AutomataImpl::new(3);
    nfa.transitions[0][1] = label("a");
    nfa.transitions[0][2] = label("a");
    nfa.transitions[1][1] = label("b");
    nfa.transitions[2][0] = label("c");
    nfa.finite_states[1] = true;
    let dfa = nfa.determinize();
    // {0} -a-> {1,2}; {1,2} -b-> {1}, -c-> {0}; {1} -b-> {1}
    assert_eq!(dfa.size, 3);
    assert_eq!(dfa.start_states, vec![true, false, false]);
    assert_eq!(dfa.finite_states, vec![false, true, true]);
    assert_eq!(dfa.transitions[0], vec![None, label("a"), None]);
    assert_eq!(dfa.transitions[1], vec![label("c"), None, label("b")]);
    assert_eq!(dfa.transitions[2], vec![None, None, label("b")]);
}

#[test]
fn determinizing_keeps_the_language_on_a_sample() {
    let mut nfa = AutomataImpl::new(4);
    nfa.transitions[0][1] = label("");
    nfa.transitions[0][2] = label("a");
    nfa.transitions[1][1] = label("b");
    nfa.transitions[1][3] = label("a");
    nfa.transitions[2][3] = label("");
    nfa.transitions[2][0] = label("b");
    nfa.transitions[3][2] = label("a");
    nfa.finite_states[3] = true;
    let dfa = nfa.determinize();
    for word in words("ab", 7) {
        assert_eq!(dfa.check_membership(&word), accepts(&nfa, &word), "word {word:?}");
    }
    assert!(dfa.check_membership("a"));
    assert!(!dfa.check_membership(""));
}

#[test]
fn a_cell_holds_one_label_when_two_characters_lead_to_one_subset() {
    // from the closure of the start state both a and b lead to state 2 alone
    let mut nfa = AutomataImpl::new(3);
    nfa.transitions[0][1] = label("");
    nfa.transitions[0][2] = label("a");
    nfa.transitions[1][2] = label("b");
    nfa.finite_states[2] = true;
    assert!(accepts(&nfa, "a"));
    assert!(accepts(&nfa, "b"));
    let dfa = nfa.determinize();
    assert_eq!(dfa.size, 2);
    assert_eq!(dfa.transitions, vec![vec![None, label("b")], vec![None, None]]);
    assert!(dfa.check_membership("b"));
    assert!(!dfa.check_membership("a"));
}

#[test]
fn grouping_wraps_what_is_not_one_character_or_one_group() {
    assert_eq!(AutomataImpl::wrap(&"ab".to_string()), "(ab)");
    assert_eq!(AutomataImpl::wrap(&String::new()), "()");
    assert_eq!(AutomataImpl::wrap_if_needed(&"a".to_string()), "a");
    assert_eq!(AutomataImpl::wrap_if_needed(&"ab".to_string()), "(ab)");
    assert_eq!(AutomataImpl::wrap_if_needed(&"(ab)".to_string()), "(ab)");
    assert_eq!(AutomataImpl::wrap_if_needed(&"((a)b)".to_string()), "((a)b)");
    assert_eq!(AutomataImpl::wrap_if_needed(&"(a)(b)".to_string()), "((a)(b))");
    assert_eq!(AutomataImpl::wrap_if_needed(&String::new()), "()");
    assert_eq!(AutomataImpl::wrap_if_needed(&"()".to_string()), "()");
}

#[test]
fn unfold_axiom_needs_a_silent_direct_edge_an_equal_loop_and_a_silent_exit() {
    let a = "a".to_string();
    let b = "b".to_string();
    let silent = String::new();
    assert!(AutomataImpl::is_unfold_axiom_applicable(&label(""), &a, &label("a"), &silent));
    assert!(!AutomataImpl::is_unfold_axiom_applicable(&None, &a, &label("a"), &silent));
    assert!(!AutomataImpl::is_unfold_axiom_applicable(&label("b"), &a, &label("a"), &silent));
    assert!(!AutomataImpl::is_unfold_axiom_applicable(&label(""), &a, &label("b"), &silent));
    assert!(!AutomataImpl::is_unfold_axiom_applicable(&label(""), &a, &None, &silent));
    assert!(!AutomataImpl::is_unfold_axiom_applicable(&label(""), &a, &label("a"), &b));
}

#[test]
fn composed_labels_follow_the_elimination_identity() {
    let a = "a".to_string();
    let b = "b".to_string();
    let ab = "ab".to_string();
    let silent = String::new();
    assert_eq!(AutomataImpl::compose_regex(&None, &a, &None, &b), "ab");
    assert_eq!(AutomataImpl::compose_regex(&None, &a, &label("c"), &b), "ac*b");
    assert_eq!(AutomataImpl::compose_regex(&None, &a, &label("cd"), &b), "a(cd)*b");
    assert_eq!(AutomataImpl::compose_regex(&None, &a, &label("(c|d)"), &silent), "a(c|d)*");
    assert_eq!(AutomataImpl::compose_regex(&label("x"), &a, &None, &b), "(x|ab)");
    assert_eq!(AutomataImpl::compose_regex(&label("x"), &a, &label("c"), &silent), "(x|ac*)");
    assert_eq!(AutomataImpl::compose_regex(&label(""), &a, &None, &silent), "a?");
    assert_eq!(AutomataImpl::compose_regex(&label(""), &a, &None, &b), "(ab)?");
    assert_eq!(AutomataImpl::compose_regex(&label(""), &a, &label("a"), &silent), "a*");
    assert_eq!(AutomataImpl::compose_regex(&label(""), &ab, &label("ab"), &silent), "(ab)*");
    assert_eq!(AutomataImpl::compose_regex(&label(""), &a, &label("a"), &b), "(aa*b)?");
    assert_eq!(AutomataImpl::compose_regex(&None, &silent, &None, &silent), "");
}

#[test]
fn preparing_adds_one_accepting_state_behind_silent_edges() {
    let mut automata = AutomataImpl::new(2);
    automata.transitions[0][1] = label("a");
    automata.finite_states[0] = true;
    automata.finite_states[1] = true;
    let prepared = automata.prepare_for_state_elimination();
    assert_eq!(prepared.size, 3);
    assert_eq!(prepared.start_states, vec![true, false, false]);
    assert_eq!(prepared.finite_states, vec![false, false, true]);
    assert_eq!(prepared.transitions[0], vec![None, label("a"), label("")]);
    assert_eq!(prepared.transitions[1], vec![None, None, label("")]);
    assert_eq!(prepared.transitions[2], vec![None, None, None]);
}

#[test]
fn neighbours_leave_out_the_state_itself() {
    let mut automata = AutomataImpl::new(3);
    automata.transitions[1][1] = label("a");
    automata.transitions[1][2] = label("b");
    automata.transitions[0][1] = label("c");
    automata.transitions[2][1] = label("d");
    assert_eq!(automata.get_outcoming_states(1), vec![2]);
    assert_eq!(automata.get_incoming_states(1), vec![0, 2]);
    assert_eq!(automata.get_outcoming_states(0), vec![1]);
    assert_eq!(automata.get_incoming_states(0), Vec::<usize>::new());
}

#[test]
fn eliminating_a_transition_rewrites_the_direct_edge_only() {
    let mut automata = AutomataImpl::new(3);
    automata.transitions[0][1] = label("a");
    automata.transitions[1][1] = label("b");
    automata.transitions[1][2] = label("c");
    automata.transitions[0][2] = label("d");
    let before = automata.clone();
    automata.eliminate_transition(0, 1, 2);
    assert_eq!(automata.transitions[0][2], label("(d|ab*c)"));
    automata.transitions[0][2] = label("d");
    assert_eq!(automata, before);
}

#[test]
fn eliminating_a_state_moves_the_last_state_into_its_place() {
    let mut automata = AutomataImpl::new(3);
    automata.transitions[0][2] = label("x");
    automata.transitions[2][0] = label("y");
    automata.transitions[2][2] = label("z");
    automata.transitions[1][2] = label("w");
    automata.finite_states[2] = true;
    automata.eliminate_state(1);
    assert_eq!(automata.size, 2);
    assert_eq!(automata.start_states, vec![true, false]);
    assert_eq!(automata.finite_states, vec![false, true]);
    assert_eq!(automata.transitions[0], vec![None, label("x")]);
    assert_eq!(automata.transitions[1], vec![label("y"), label("z")]);
}

#[test]
fn state_elimination_yields_a_star() {
    let mut automata = AutomataImpl::new(2);
    automata.transitions[0][1] = label("a");
    automata.transitions[1][1] = label("a");
    automata.finite_states[0] = true;
    automata.finite_states[1] = true;
    assert_eq!(automata.to_regex(), label("a*"));
}

#[test]
fn state_elimination_of_bab_star() {
    assert_eq!(bab_star().to_regex(), label("bab*"));
}

#[test]
fn empty_language_has_no_regex() {
    let mut automata = AutomataImpl::new(2);
    automata.transitions[0][1] = label("a");
    assert_eq!(automata.to_regex(), None);
    assert_eq!(AutomataImpl::new(1).to_regex(), None);
}

#[test]
fn the_language_of_the_empty_word_is_the_empty_regex_not_none() {
    let mut automata = AutomataImpl::new(1);
    automata.finite_states[0] = true;
    assert_eq!(automata.to_regex(), label(""));
}

#[test]
fn determinizing_twice_gives_the_same_automaton() {
    let mut nfa = AutomataImpl::new(4);
    nfa.transitions[0][1] = label("");
    nfa.transitions[0][2] = label("a");
    nfa.transitions[1][1] = label("b");
    nfa.transitions[1][3] = label("a");
    nfa.transitions[2][3] = label("");
    nfa.transitions[2][0] = label("b");
    nfa.transitions[3][2] = label("a");
    nfa.finite_states[3] = true;
    let first = nfa.determinize();
    let second = nfa.determinize();
    assert_eq!(first, second);
    // the closure of the start state is {0, 1}: a leads to {2, 3}, b to {1}
    assert_eq!(first.transitions[0][1], label("a"));
    assert_eq!(first.transitions[0][2], label("b"));
    assert_eq!(first.finite_states[0], false);
    assert_eq!(first.finite_states[1], true);
}
