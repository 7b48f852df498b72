//! The two checks that decide whether the tables yield a hypothesis:
//! completeness and consistency.
use vstd::prelude::*;
use vstd::string::*;

use crate::mat::Mat;
use crate::nl::main_table::{concat, is_within, position_of};
use crate::nl::table::{distinct, known, within, CoverageMode};
use crate::nl::{position, CompletenessCheckResult, ConsistencyCheckResult, NlImpl, Tables};

verus! {

/// The first position at or after `from` of a suffix that `left` holds and
/// `right` lacks.
pub open spec fn first_difference(left: Seq<bool>, right: Seq<bool>, from: int) -> Option<int>
    decreases left.len() - from,
{
    if from < 0 || from >= left.len() {
        None
    } else if left[from] && !right[from] {
        Some(from)
    } else {
        first_difference(left, right, from + 1)
    }
}

/// Among distinct words, the position of a word is the place where it
/// stands.
pub proof fn lemma_position(words: Seq<Seq<char>>, i: int)
    requires
        distinct(words),
        0 <= i < words.len(),
    ensures
        position(words, words[i]) == i,
{
    let word = words[i];
    let found = choose|k: int| 0 <= k < words.len() && words[k] == word;
    assert(0 <= found < words.len() && words[found] == word);
}

/// The first position of a suffix that `left` holds and `right` lacks.
pub fn first_difference_of(left: &Vec<bool>, right: &Vec<bool>) -> (found: Option<usize>)
    requires
        left.len() == right.len(),
    ensures
        match found {
            Some(j) => first_difference(left@, right@, 0) == Some(j as int) && j < left.len(),
            None => first_difference(left@, right@, 0) is None,
        },
{
    let mut j: usize = 0;
    while j < left.len()
        invariant
            left.len() == right.len(),
            j <= left.len(),
            first_difference(left@, right@, 0) == first_difference(left@, right@, j as int),
        decreases left.len() - j,
    {
        if left[j] && !right[j] {
            return Some(j);
        }
        j += 1;
    }
    None
}

impl Tables {
    /// The main table covers the row of the prefix at position `e` of the
    /// extended table, the prefix itself allowed as a witness.
    pub open spec fn covers(self, e: int) -> bool {
        self.main.covered(
            self.extended.prefixes[e],
            self.extended.rows[e],
            CoverageMode::Inclusive,
        )
    }

    /// The position, at or after `from`, of the first prefix of the
    /// extended table whose row the main table does not cover.
    pub open spec fn uncovered_from(self, from: int) -> Option<int>
        decreases self.extended.prefixes.len() - from,
    {
        if from < 0 || from >= self.extended.prefixes.len() {
            None
        } else if !self.covers(from) {
            Some(from)
        } else {
            self.uncovered_from(from + 1)
        }
    }

    /// The prefix that the tables call for: the first prefix of the
    /// extended table whose row the main table does not cover. `None` where
    /// the tables are complete.
    pub open spec fn uncovered_prefix(self) -> Option<Seq<char>> {
        match self.uncovered_from(0) {
            Some(e) => Some(self.extended.prefixes[e]),
            None => None,
        }
    }

    /// The row in the extended table of the prefix at position `i` of the
    /// main table followed by the character at position `a` of the alphabet.
    pub open spec fn extension_row(self, i: int, a: int) -> Seq<bool> {
        self.extended.rows[position(
            self.extended.prefixes,
            self.main.prefixes[i].push(self.alphabet[a]),
        )]
    }

    /// The suffix that tells the prefixes at positions `i1` and `i2` apart
    /// behind the first character at or after position `from` that has
    /// one: the character, followed by the first suffix that the row of the
    /// first extension holds and the row of the second lacks.
    pub open spec fn letter_conflict(self, i1: int, i2: int, from: int) -> Option<Seq<char>>
        decreases self.alphabet.len() - from,
    {
        if from < 0 || from >= self.alphabet.len() {
            None
        } else {
            match first_difference(self.extension_row(i1, from), self.extension_row(i2, from), 0) {
                Some(j) => Some(seq![self.alphabet[from]] + self.main.suffixes[j]),
                None => self.letter_conflict(i1, i2, from + 1),
            }
        }
    }

    /// The suffix that tells the two prefixes apart, where the row of the
    /// first lies within the row of the second.
    pub open spec fn pair_conflict(self, i1: int, i2: int) -> Option<Seq<char>> {
        if within(self.main.rows[i1], self.main.rows[i2]) {
            self.letter_conflict(i1, i2, 0)
        } else {
            None
        }
    }

    /// The first conflict of the prefix at `i1` with a prefix at or after
    /// `from`.
    pub open spec fn row_conflict(self, i1: int, from: int) -> Option<Seq<char>>
        decreases self.main.prefixes.len() - from,
    {
        if from < 0 || from >= self.main.prefixes.len() {
            None
        } else {
            match self.pair_conflict(i1, from) {
                Some(suffix) => Some(suffix),
                None => self.row_conflict(i1, from + 1),
            }
        }
    }

    /// The first conflict of a prefix at or after `from` with any prefix.
    pub open spec fn table_conflict(self, from: int) -> Option<Seq<char>>
        decreases self.main.prefixes.len() - from,
    {
        if from < 0 || from >= self.main.prefixes.len() {
            None
        } else {
            match self.row_conflict(from, 0) {
                Some(suffix) => Some(suffix),
                None => self.table_conflict(from + 1),
            }
        }
    }

    /// The distinguishing suffix that the tables call for: for the first
    /// pair of prefixes, in the order of the main table, of which the row
    /// of the first lies within the row of the second while, behind some
    /// character, the extension of the first holds a suffix that the
    /// extension of the second lacks, that character followed by that
    /// suffix. `None` where the tables are consistent.
    pub open spec fn distinguishing_suffix(self) -> Option<Seq<char>> {
        self.table_conflict(0)
    }
}

impl<'a, M: Mat> NlImpl<'a, M> {
    /// Looks for a prefix of the extended table whose row the basic
    /// prefixes do not cover, and returns the first.
    pub fn check_completeness(&self) -> (result: CompletenessCheckResult)
        requires
            self.wf(),
        ensures
            match result {
                CompletenessCheckResult::UncoveredPrefix(prefix) => self@.uncovered_prefix() == Some(prefix@),
                CompletenessCheckResult::Complete => self@.uncovered_prefix() is None,
            },
            match result {
                CompletenessCheckResult::UncoveredPrefix(prefix) => exists|e: int|
                    0 <= e < self.extended_table@.prefixes.len() && #[trigger] self.extended_table@.prefixes[e]
                        == prefix@ && !self@.covers(e) && forall|earlier: int| 0 <= earlier < e ==> self@.covers(earlier),
                CompletenessCheckResult::Complete => forall|e: int|
                    0 <= e < self.extended_table@.prefixes.len() ==> self@.covers(e),
            },
    {
        let mut e: usize = 0;
        while e < self.extended_table.prefixes.len()
            invariant
                self.wf(),
                e <= self.extended_table.prefixes.len(),
                self@.uncovered_from(0) == self@.uncovered_from(e as int),
                forall|earlier: int| 0 <= earlier < e ==> self@.covers(earlier),
            decreases self.extended_table.prefixes.len() - e,
        {
            let ghost table = self.extended_table@;
            assert(table.rows[e as int] == self.extended_table.prefix_to_membership_suffixes[e as int]@);
            assert(table.prefixes[e as int] == self.extended_table.prefixes[e as int]@);
            assert(table.rows[e as int].len() == table.suffixes.len());
            let covered: bool = self.main_table.is_covered(
                self.extended_table.prefixes[e].as_str(),
                &self.extended_table.prefix_to_membership_suffixes[e],
                CoverageMode::Inclusive,
            );
            if !covered {
                return CompletenessCheckResult::UncoveredPrefix(self.extended_table.prefixes[e].clone());
            }
            e += 1;
        }
        CompletenessCheckResult::Complete
    }

    /// The position in the extended table of the prefix at position `i` of
    /// the main table followed by the character at position `a` of the
    /// alphabet.
    pub fn extension_position(&self, i: usize, a: usize) -> (e: usize)
        requires
            self.wf(),
            i < self.main_table.prefixes.len(),
            a < self.mat.alphabet().len(),
        ensures
            e < self.extended_table.prefixes.len(),
            self.extended_table@.prefixes[e as int] == self.main_table@.prefixes[i as int].push(self.mat.alphabet()[a as int]),
            self.extended_table@.rows[e as int] == self@.extension_row(i as int, a as int),
    {
        let alphabet: &str = self.extended_table.alphabet.as_str();
        let letters: usize = alphabet.unicode_len();
        assert(a < letters);
        let extension = concat(self.main_table.prefixes[i].as_str(), alphabet.substring_char(a, a + 1));
        let ghost word = self.main_table@.prefixes[i as int].push(self.mat.alphabet()[a as int]);
        assert(extension@ =~= word);
        assert(known(self.extended_table@.prefixes, word));
        match position_of(&self.extended_table.prefixes, extension.as_str()) {
            Some(e) => {
                proof {
                    assert(self.extended_table@.prefixes[e as int] == word);
                    lemma_position(self.extended_table@.prefixes, e as int);
                }
                e
            },
            None => 0,
        }
    }

    /// The suffix that tells the two prefixes apart behind some character,
    /// for the first character that has one.
    pub fn find_letter_conflict(&self, i1: usize, i2: usize) -> (found: Option<String>)
        requires
            self.wf(),
            i1 < self.main_table.prefixes.len(),
            i2 < self.main_table.prefixes.len(),
        ensures
            match found {
                Some(suffix) => self@.letter_conflict(i1 as int, i2 as int, 0) == Some(suffix@),
                None => self@.letter_conflict(i1 as int, i2 as int, 0) is None,
            },
    {
        let alphabet: &str = self.extended_table.alphabet.as_str();
        let letters: usize = alphabet.unicode_len();
        let mut a: usize = 0;
        while a < letters
            invariant
                self.wf(),
                i1 < self.main_table.prefixes.len(),
                i2 < self.main_table.prefixes.len(),
                alphabet@ == self.mat.alphabet(),
                letters == alphabet@.len(),
                a <= letters,
                self@.letter_conflict(i1 as int, i2 as int, 0) == self@.letter_conflict(i1 as int, i2 as int, a as int),
            decreases letters - a,
        {
            let e1: usize = self.extension_position(i1, a);
            let e2: usize = self.extension_position(i2, a);
            let ghost table = self.extended_table@;
            assert(table.rows[e1 as int] == self.extended_table.prefix_to_membership_suffixes[e1 as int]@);
            assert(table.rows[e2 as int] == self.extended_table.prefix_to_membership_suffixes[e2 as int]@);
            assert(table.rows[e1 as int].len() == table.suffixes.len());
            assert(table.rows[e2 as int].len() == table.suffixes.len());
            match first_difference_of(
                &self.extended_table.prefix_to_membership_suffixes[e1],
                &self.extended_table.prefix_to_membership_suffixes[e2],
            ) {
                Some(j) => {
                    assert(self.main_table@.suffixes[j as int] == self.main_table.suffixes[j as int]@);
                    let suffix = concat(alphabet.substring_char(a, a + 1), self.main_table.suffixes[j].as_str());
                    assert(suffix@ =~= seq![self.mat.alphabet()[a as int]] + self.main_table@.suffixes[j as int]);
                    return Some(suffix);
                },
                None => {},
            }
            a += 1;
        }
        None
    }

    /// Looks for two prefixes of the main table of which the row of the
    /// first lies within the row of the second, while behind some character
    /// the first holds a suffix that the second lacks; returns that
    /// character followed by that suffix, for the first such pair.
    pub fn check_consistency(&self) -> (result: ConsistencyCheckResult)
        requires
            self.wf(),
        ensures
            match result {
                ConsistencyCheckResult::DistinguishingSuffix(suffix) => self@.distinguishing_suffix() == Some(suffix@),
                ConsistencyCheckResult::Consistent => self@.distinguishing_suffix() is None,
            },
    {
        let count: usize = self.main_table.prefixes.len();
        let mut i1: usize = 0;
        while i1 < count
            invariant
                self.wf(),
                count == self.main_table.prefixes.len(),
                i1 <= count,
                self@.table_conflict(0) == self@.table_conflict(i1 as int),
            decreases count - i1,
        {
            let mut i2: usize = 0;
            while i2 < count
                invariant
                    self.wf(),
                    count == self.main_table.prefixes.len(),
                    i1 < count,
                    i2 <= count,
                    self@.table_conflict(0) == self@.table_conflict(i1 as int),
                    self@.row_conflict(i1 as int, 0) == self@.row_conflict(i1 as int, i2 as int),
                decreases count - i2,
            {
                let ghost table = self.main_table@;
                assert(table.rows[i1 as int] == self.main_table.prefix_to_membership_suffixes[i1 as int]@);
                assert(table.rows[i2 as int] == self.main_table.prefix_to_membership_suffixes[i2 as int]@);
                assert(table.rows[i1 as int].len() == table.suffixes.len());
                assert(table.rows[i2 as int].len() == table.suffixes.len());
                if is_within(
                    &self.main_table.prefix_to_membership_suffixes[i1],
                    &self.main_table.prefix_to_membership_suffixes[i2],
                ) {
                    match self.find_letter_conflict(i1, i2) {
                        Some(suffix) => {
                            assert(self@.pair_conflict(i1 as int, i2 as int) == Some(suffix@));
                            assert(self@.row_conflict(i1 as int, i2 as int) == Some(suffix@));
                            assert(self@.table_conflict(i1 as int) == Some(suffix@));
                            return ConsistencyCheckResult::DistinguishingSuffix(suffix);
                        },
                        None => {},
                    }
                }
                i2 += 1;
            }
            i1 += 1;
        }
        ConsistencyCheckResult::Consistent
    }
}

} // verus!
