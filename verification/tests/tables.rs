use std::cell::Cell;

use nl_learner::languages::{decide_b_a_b_star, AnBn, BaBStar};
use nl_learner::mat::{MatImpl, Oracle};
use nl_learner::nl::extended_table::ExtendedTable;
use nl_learner::nl::main_table::{EquivalentBasicPrefixSearchResult, MainTable};
use nl_learner::nl::table::CoverageMode;

/// The oracle of `b a b*` that counts its queries.
struct Counting {
    queries: Cell<usize>,
}

impl Oracle for Counting {
    fn decide(&self, word: &str) -> bool {
        self.queries.set(self.queries.get() + 1);
        decide_b_a_b_star(word)
    }
}

fn teacher() -> MatImpl<BaBStar> {
    MatImpl::new("ab", BaBStar, 10, 5)
}

fn counting_teacher() -> MatImpl<Counting> {
    MatImpl::new("ab", Counting { queries: Cell::new(0) }, 10, 5)
}

fn found(result: EquivalentBasicPrefixSearchResult) -> Option<usize> {
    match result {
        EquivalentBasicPrefixSearchResult::Found(k) => Some(k),
        EquivalentBasicPrefixSearchResult::NotFound => None,
    }
}

fn consistent_main<O: Oracle>(table: &MainTable<MatImpl<O>>) {
    assert_eq!(table.prefix_to_membership_suffixes.len(), table.prefixes.len());
    assert_eq!(table.suffix_to_membership_prefixes.len(), table.suffixes.len());
    for (i, prefix) in table.prefixes.iter().enumerate() {
        for (j, suffix) in table.suffixes.iter().enumerate() {
            let word = format!("{prefix}{suffix}");
            assert_eq!(table.prefix_to_membership_suffixes[i][j], decide_b_a_b_star(&word), "{word:?}");
            assert_eq!(table.suffix_to_membership_prefixes[j][i], decide_b_a_b_star(&word), "{word:?}");
        }
    }
}

fn consistent_extended<O: Oracle>(table: &ExtendedTable<MatImpl<O>>) {
    assert_eq!(table.prefix_to_membership_suffixes.len(), table.prefixes.len());
    for (i, prefix) in table.prefixes.iter().enumerate() {
        assert_eq!(table.prefix_to_membership_suffixes[i].len(), table.suffixes.len());
        for (j, suffix) in table.suffixes.iter().enumerate() {
            let word = format!("{prefix}{suffix}");
            assert_eq!(table.prefix_to_membership_suffixes[i][j], decide_b_a_b_star(&word), "{word:?}");
        }
    }
}

#[test]
fn new_main_table_holds_the_empty_prefix_and_suffix() {
    let mat = teacher();
    let table = MainTable::new(&mat);
    assert_eq!(table.prefixes, vec![""]);
    assert_eq!(table.suffixes, vec![""]);
    assert_eq!(table.basic_prefixes, vec![0]);
    assert_eq!(table.prefix_to_membership_suffixes, vec![vec![false]]);
    assert_eq!(table.suffix_to_membership_prefixes, vec![vec![false]]);
}

#[test]
fn a_prefix_with_a_new_row_that_nothing_covers_becomes_basic() {
    let mat = teacher();
    let mut table = MainTable::new(&mat);
    table.insert_prefix("ba");
    assert_eq!(table.prefixes, vec!["", "ba"]);
    assert_eq!(table.prefix_to_membership_suffixes, vec![vec![false], vec![true]]);
    assert_eq!(table.suffix_to_membership_prefixes, vec![vec![false, true]]);
    assert_eq!(table.basic_prefixes, vec![0, 1]);
}

#[test]
fn a_prefix_with_the_row_of_a_basic_prefix_stays_out_unless_shorter() {
    let mat = teacher();
    let mut table = MainTable::new(&mat);
    table.insert_prefix("ba");
    table.insert_prefix("bab");
    assert_eq!(table.prefixes, vec!["", "ba", "bab"]);
    assert_eq!(table.basic_prefixes, vec![0, 1]);
    // of equal length: the one that was basic first stays
    table.insert_prefix("a");
    assert_eq!(table.basic_prefixes, vec![0, 1]);

    let mut table = MainTable::new(&mat);
    table.insert_prefix("babb");
    assert_eq!(table.basic_prefixes, vec![0, 1]);
    table.insert_prefix("ba");
    assert_eq!(table.prefixes, vec!["", "babb", "ba"]);
    assert_eq!(table.basic_prefixes, vec![0, 2]);
}

#[test]
fn inserting_a_known_prefix_or_suffix_changes_nothing_and_asks_nothing() {
    let mat = counting_teacher();
    let mut table = MainTable::new(&mat);
    table.insert_prefix("ba");
    table.insert_suffix("b");
    let asked = mat.oracle.queries.get();
    let prefixes = table.prefixes.clone();
    let suffixes = table.suffixes.clone();
    let basic = table.basic_prefixes.clone();
    let rows = table.prefix_to_membership_suffixes.clone();
    let columns = table.suffix_to_membership_prefixes.clone();
    table.insert_prefix("ba");
    table.insert_prefix("");
    table.insert_suffix("b");
    table.insert_suffix("");
    assert_eq!(mat.oracle.queries.get(), asked);
    assert_eq!(table.prefixes, prefixes);
    assert_eq!(table.suffixes, suffixes);
    assert_eq!(table.basic_prefixes, basic);
    assert_eq!(table.prefix_to_membership_suffixes, rows);
    assert_eq!(table.suffix_to_membership_prefixes, columns);

    let mut extended = ExtendedTable::new(&mat);
    extended.insert_prefix("b");
    extended.insert_suffix("b");
    let asked = mat.oracle.queries.get();
    let prefixes = extended.prefixes.clone();
    let suffixes = extended.suffixes.clone();
    let rows = extended.prefix_to_membership_suffixes.clone();
    extended.insert_prefix("b");
    extended.insert_prefix("");
    extended.insert_prefix_impl("ba");
    extended.insert_suffix("b");
    extended.insert_suffix("");
    assert_eq!(mat.oracle.queries.get(), asked);
    assert_eq!(extended.prefixes, prefixes);
    assert_eq!(extended.suffixes, suffixes);
    assert_eq!(extended.prefix_to_membership_suffixes, rows);
}

#[test]
fn a_new_prefix_costs_one_query_per_suffix_and_a_new_suffix_one_per_prefix() {
    let mat = counting_teacher();
    let mut table = MainTable::new(&mat);
    assert_eq!(mat.oracle.queries.get(), 1);
    table.insert_suffix("a");
    table.insert_suffix("b");
    assert_eq!(mat.oracle.queries.get(), 3);
    table.insert_prefix("b");
    assert_eq!(mat.oracle.queries.get(), 6);
    table.insert_suffix("ab");
    assert_eq!(mat.oracle.queries.get(), 8);
}

#[test]
fn signatures_are_the_answers_of_the_teacher_after_every_insertion() {
    let mat = teacher();
    let mut table = MainTable::new(&mat);
    let mut extended = ExtendedTable::new(&mat);
    consistent_main(&table);
    consistent_extended(&extended);
    for step in ["b", "ba", "a", "bab", "ab"] {
        table.insert_prefix(step);
        extended.insert_prefix(step);
        consistent_main(&table);
        consistent_extended(&extended);
        table.insert_suffix(step);
        extended.insert_suffix(step);
        consistent_main(&table);
        consistent_extended(&extended);
    }
    assert_eq!(table.suffixes, extended.suffixes);
    assert_eq!(table.suffixes, vec!["", "b", "ba", "a", "bab", "ab"]);
    assert_eq!(extended.prefixes, vec!["a", "b", "ba", "bb", "baa", "bab", "aa", "ab", "baba", "babb", "aba", "abb"]);
}

#[test]
fn a_new_suffix_rebuilds_the_basic_prefixes() {
    let mat = teacher();
    let mut table = MainTable::new(&mat);
    table.insert_prefix("b");
    assert_eq!(table.basic_prefixes, vec![0]);
    table.insert_suffix("a");
    // rows: "" -> {}, "b" -> {a}
    assert_eq!(table.prefix_to_membership_suffixes, vec![vec![false, false], vec![false, true]]);
    assert_eq!(table.suffix_to_membership_prefixes, vec![vec![false, false], vec![false, true]]);
    assert_eq!(table.basic_prefixes, vec![0, 1]);
}

#[test]
fn cleanup_drops_a_basic_prefix_that_the_others_cover() {
    let mat = teacher();
    let mut table = MainTable::new(&mat);
    for prefix in ["b", "ba", "bb"] {
        table.insert_prefix(prefix);
    }
    for suffix in ["a", "ba"] {
        table.insert_suffix(suffix);
    }
    // rows over "", a, ba: "" -> {ba}, b -> {a}, ba -> {""}, bb -> {}
    assert_eq!(
        table.prefix_to_membership_suffixes,
        vec![
            vec![false, false, true],
            vec![false, true, false],
            vec![true, false, false],
            vec![false, false, false]
        ]
    );
    let mut basic = table.basic_prefixes.clone();
    basic.sort();
    assert_eq!(basic, vec![0, 1, 2, 3]);
    // a row that is the union of two others is covered by them
    let union = vec![false, true, true];
    assert!(table.is_covered("x", &union, CoverageMode::Inclusive));
    assert!(table.is_covered("x", &union, CoverageMode::Exclusive));
    // make every prefix basic twice over: nothing changes, each row is needed
    table.rebuild_basic_prefixes();
    let mut again = table.basic_prefixes.clone();
    again.sort();
    assert_eq!(again, vec![0, 1, 2, 3]);
    table.cleanup_basic_prefixes();
    let mut cleaned = table.basic_prefixes.clone();
    cleaned.sort();
    assert_eq!(cleaned, vec![0, 1, 2, 3]);
}

#[test]
fn coverage_in_both_modes() {
    let mat = teacher();
    let mut table = MainTable::new(&mat);
    table.insert_prefix("ba");
    table.insert_suffix("b");
    // suffixes "", b; rows: "" -> {}, ba -> {"", b}; both basic
    assert_eq!(table.prefix_to_membership_suffixes, vec![vec![false, false], vec![true, true]]);
    assert_eq!(table.basic_prefixes, vec![0, 1]);
    // an empty row: covered, but never in exclusive mode
    assert!(table.is_covered("bb", &vec![false, false], CoverageMode::Inclusive));
    assert!(!table.is_covered("bb", &vec![false, false], CoverageMode::Exclusive));
    // the row of ba: ba witnesses itself, and nothing else does
    assert!(table.is_covered("ba", &vec![true, true], CoverageMode::Inclusive));
    assert!(!table.is_covered("ba", &vec![true, true], CoverageMode::Exclusive));
    // the same row under another prefix has ba as its witness
    assert!(table.is_covered("bab", &vec![true, true], CoverageMode::Exclusive));
    // a row that lacks a suffix of ba cannot have ba as its witness
    assert!(!table.is_covered("x", &vec![true, false], CoverageMode::Inclusive));
    assert!(!table.is_covered("x", &vec![false, true], CoverageMode::Exclusive));
}

#[test]
fn equivalent_basic_prefix_is_the_first_with_the_row() {
    let mat = teacher();
    let mut table = MainTable::new(&mat);
    table.insert_prefix("ba");
    assert_eq!(found(table.find_equivalent_basic_prefix(&vec![false])), Some(0));
    assert_eq!(found(table.find_equivalent_basic_prefix(&vec![true])), Some(1));
    table.insert_suffix("b");
    assert_eq!(found(table.find_equivalent_basic_prefix(&vec![true, true])), Some(1));
    assert_eq!(found(table.find_equivalent_basic_prefix(&vec![true, false])), None);
    assert!(table.is_shorter("b", "ba"));
    assert!(!table.is_shorter("ab", "ba"));
    assert!(!table.is_shorter("bab", "ba"));
}

#[test]
fn absorbed_basic_prefixes_are_those_whose_row_lies_within() {
    let mat = teacher();
    let mut table = MainTable::new(&mat);
    table.insert_prefix("ba");
    table.insert_suffix("b");
    assert_eq!(table.basic_prefixes, vec![0, 1]);
    assert_eq!(table.get_absorbed_basic_prefixes(&vec![false, false]), vec![0]);
    assert_eq!(table.get_absorbed_basic_prefixes(&vec![true, false]), vec![0]);
    assert_eq!(table.get_absorbed_basic_prefixes(&vec![true, true]), vec![0, 1]);
}

#[test]
fn new_extended_table_holds_the_one_letter_words() {
    let mat = teacher();
    let table = ExtendedTable::new(&mat);
    assert_eq!(table.alphabet, "ab");
    assert_eq!(table.prefixes, vec!["a", "b"]);
    assert_eq!(table.suffixes, vec![""]);
    assert_eq!(table.prefix_to_membership_suffixes, vec![vec![false], vec![false]]);
}

#[test]
fn extended_table_takes_the_extensions_of_a_prefix() {
    let mat = teacher();
    let mut table = ExtendedTable::new(&mat);
    table.insert_prefix("b");
    assert_eq!(table.prefixes, vec!["a", "b", "ba", "bb"]);
    assert_eq!(table.prefix_to_membership_suffixes, vec![vec![false], vec![false], vec![true], vec![false]]);
    table.insert_suffix("a");
    assert_eq!(table.suffixes, vec!["", "a"]);
    assert_eq!(
        table.prefix_to_membership_suffixes,
        vec![vec![false, false], vec![false, true], vec![true, false], vec![false, false]]
    );
    table.insert_prefix_impl("x");
    assert_eq!(table.prefixes, vec!["a", "b", "ba", "bb", "x"]);
    assert_eq!(table.prefix_to_membership_suffixes[4], vec![false, false]);
}

#[test]
fn prefixes_with_one_row_have_one_basic_prefix_after_a_new_suffix() {
    // the teacher rejects "", b and bb: both rows stay empty
    let mat = MatImpl::new("ab", AnBn, 10, 5);
    let mut table = MainTable::new(&mat);
    table.insert_prefix("b");
    table.insert_suffix("b");
    assert_eq!(table.prefixes, vec!["", "b"]);
    assert_eq!(table.suffixes, vec!["", "b"]);
    assert_eq!(table.prefix_to_membership_suffixes, vec![vec![false, false], vec![false, false]]);
    assert_eq!(table.basic_prefixes, vec![0]);
}

#[test]
fn the_shortest_prefix_of_a_row_is_its_basic_prefix() {
    let mat = teacher();
    let mut table = MainTable::new(&mat);
    for prefix in ["babb", "bab", "ba", "bb", "a"] {
        table.insert_prefix(prefix);
    }
    for suffix in ["b", "a", "ab"] {
        table.insert_suffix(suffix);
        let rows = &table.prefix_to_membership_suffixes;
        for (x, &b) in table.basic_prefixes.iter().enumerate() {
            for &other in &table.basic_prefixes[x + 1..] {
                assert_ne!(rows[b], rows[other]);
            }
            for i in 0..table.prefixes.len() {
                if rows[i] == rows[b] {
                    assert!(table.prefixes[i].len() >= table.prefixes[b].len());
                }
            }
        }
    }
    // the row of ba, bab and babb is one row: ba stands for it
    assert_eq!(table.find_representative(&table.prefix_to_membership_suffixes[1]), Some(3));
    assert!(table.basic_prefixes.contains(&3));
    assert!(!table.basic_prefixes.contains(&1));
    assert!(!table.basic_prefixes.contains(&2));
}
