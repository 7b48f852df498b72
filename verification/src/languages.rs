//! Two sample languages over `a` and `b`, each with the procedure that
//! decides it.
use vstd::prelude::*;
use vstd::string::*;

use crate::mat::Oracle;

verus! {

/// The words `a^n b^n` with `n` at least one: an even, positive number of
/// characters, the first half all `a` and the second half all `b`.
pub open spec fn is_a_n_b_n(word: Seq<char>) -> bool {
    &&& word.len() > 0
    &&& word.len() % 2 == 0
    &&& forall|i: int| 0 <= i < word.len() / 2 ==> word[i] == 'a'
    &&& forall|i: int| word.len() / 2 <= i < word.len() ==> word[i] == 'b'
}

/// The words of `b a b*`: a `b`, an `a`, and then any number of `b`.
pub open spec fn is_b_a_b_star(word: Seq<char>) -> bool {
    &&& word.len() >= 2
    &&& word[0] == 'b'
    &&& word[1] == 'a'
    &&& forall|i: int| 2 <= i < word.len() ==> word[i] == 'b'
}

/// Decides `a^n b^n`, `n` at least one. A word of odd length is rejected
/// without a look at its characters.
pub fn decide_a_n_b_n(word: &str) -> (member: bool)
    ensures
        member == is_a_n_b_n(word@),
{
    let len: usize = word.unicode_len();
    if len % 2 == 1 {
        return false;
    }
    if len == 0 {
        return false;
    }
    let half: usize = len / 2;
    let mut left: usize = 0;
    while left < half
        invariant
            len == word@.len(),
            len % 2 == 0,
            half == len / 2,
            left <= half,
            forall|i: int| 0 <= i < left ==> word@[i] == 'a',
            forall|i: int| len - left <= i < len ==> word@[i] == 'b',
        decreases half - left,
    {
        let right: usize = len - 1 - left;
        if word.get_char(left) == 'a' && word.get_char(right) == 'b' {
            left += 1;
        } else {
            return false;
        }
    }
    true
}

/// Decides `b a b*`.
pub fn decide_b_a_b_star(word: &str) -> (member: bool)
    ensures
        member == is_b_a_b_star(word@),
{
    let len: usize = word.unicode_len();
    if len < 2 {
        return false;
    }
    if word.get_char(0) != 'b' {
        return false;
    }
    if word.get_char(1) != 'a' {
        return false;
    }
    let mut i: usize = 2;
    while i < len
        invariant
            len == word@.len(),
            2 <= i <= len,
            forall|k: int| 2 <= k < i ==> word@[k] == 'b',
        decreases len - i,
    {
        if word.get_char(i) != 'b' {
            return false;
        }
        i += 1;
    }
    true
}

/// The oracle of `a^n b^n`.
pub struct AnBn;

/// The oracle of `b a b*`.
pub struct BaBStar;

impl Oracle for AnBn {
    open spec fn accepts(&self, word: Seq<char>) -> bool {
        is_a_n_b_n(word)
    }

    fn decide(&self, word: &str) -> (verdict: bool) {
        decide_a_n_b_n(word)
    }
}

impl Oracle for BaBStar {
    open spec fn accepts(&self, word: Seq<char>) -> bool {
        is_b_a_b_star(word)
    }

    fn decide(&self, word: &str) -> (verdict: bool) {
        decide_b_a_b_star(word)
    }
}

} // verus!
