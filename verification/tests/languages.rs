use nl_learner::languages::{decide_a_n_b_n, decide_b_a_b_star, AnBn, BaBStar};
use nl_learner::mat::Oracle;

#[test]
fn a_n_b_n_scenarios() {
    assert!(decide_a_n_b_n("ab"));
    assert!(decide_a_n_b_n("aabb"));
    assert!(!decide_a_n_b_n("aba"));
    assert!(!decide_a_n_b_n(""));
}

#[test]
fn a_n_b_n_rejects_every_word_of_odd_length() {
    assert!(!decide_a_n_b_n("a"));
    assert!(!decide_a_n_b_n("b"));
    assert!(!decide_a_n_b_n("aab"));
    assert!(!decide_a_n_b_n("abb"));
    assert!(!decide_a_n_b_n("aaabb"));
}

#[test]
fn a_n_b_n_wants_the_halves_in_order() {
    assert!(decide_a_n_b_n("aaabbb"));
    assert!(!decide_a_n_b_n("ba"));
    assert!(!decide_a_n_b_n("abab"));
    assert!(!decide_a_n_b_n("aabbab"));
    assert!(!decide_a_n_b_n("aa"));
    assert!(!decide_a_n_b_n("bb"));
    assert!(!decide_a_n_b_n("acbb"));
}

#[test]
fn b_a_b_star_scenarios() {
    assert!(!decide_b_a_b_star("b"));
    assert!(decide_b_a_b_star("ba"));
    assert!(decide_b_a_b_star("babb"));
    assert!(!decide_b_a_b_star("a"));
    assert!(!decide_b_a_b_star(""));
}

#[test]
fn b_a_b_star_rejects_a_wrong_tail() {
    assert!(decide_b_a_b_star("bab"));
    assert!(!decide_b_a_b_star("baa"));
    assert!(!decide_b_a_b_star("baba"));
    assert!(!decide_b_a_b_star("ab"));
    assert!(!decide_b_a_b_star("bb"));
}

#[test]
fn oracles_answer_as_their_procedures() {
    assert!(AnBn.decide("aabb"));
    assert!(!AnBn.decide("ba"));
    assert!(BaBStar.decide("bab"));
    assert!(!BaBStar.decide("aabb"));
}
