//! The teacher: it answers membership queries about the target language and
//! looks for a word on which a hypothesis is wrong.
use vstd::arithmetic::div_mod::lemma_fundamental_div_mod_converse;
use vstd::prelude::*;
use vstd::string::*;

use crate::automata::Automata;

verus! {

/// The state of the word generator as a value of mathematics: the words of
/// the current length, and the position of the next one to hand out.
pub struct Frontier {
    pub words: Seq<Seq<char>>,
    pub next: nat,
}

/// Every word of `words` extended by every character of `alphabet`: the
/// extensions of the first word in the order of the alphabet, then those of
/// the second, and so on.
pub open spec fn extended(words: Seq<Seq<char>>, alphabet: Seq<char>) -> Seq<Seq<char>> {
    Seq::new(
        words.len() * alphabet.len(),
        |k: int| words[k / alphabet.len() as int].push(alphabet[k % alphabet.len() as int]),
    )
}

impl Frontier {
    /// There is a next word.
    pub open spec fn wf(self) -> bool {
        self.next < self.words.len()
    }

    /// The word that is handed out next.
    pub open spec fn current(self) -> Seq<char> {
        self.words[self.next as int]
    }

    /// The state after one word was handed out: the position moves on, and
    /// behind the last word the frontier gives way to its extension.
    pub open spec fn advanced(self, alphabet: Seq<char>) -> Frontier {
        if self.next + 1 < self.words.len() {
            Frontier { next: self.next + 1, ..self }
        } else {
            Frontier { words: extended(self.words, alphabet), next: 0 }
        }
    }
}

/// What a bounded search for a counterexample finds, and the state in which
/// it leaves the generator.
pub struct Outcome {
    pub counterexample: Option<Seq<char>>,
    pub frontier: Frontier,
}

/// Enumerates all words over an alphabet by rising length, and within one
/// length in the order that the alphabet gives.
pub struct WordGenerator {
    pub words: Vec<String>,
    pub next: usize,
}

impl View for WordGenerator {
    type V = Frontier;

    open spec fn view(&self) -> Frontier {
        Frontier { words: Seq::new(self.words.len() as nat, |i: int| self.words[i]@), next: self.next as nat }
    }
}

impl WordGenerator {
    /// A generator that starts with the empty word.
    pub fn new() -> (generator: Self)
        ensures
            generator@.words == seq![Seq::<char>::empty()],
            generator@.next == 0,
            generator@.wf(),
    {
        let mut words: Vec<String> = Vec::new();
        words.push(String::new());
        let generator = WordGenerator { words, next: 0 };
        assert(generator@.words =~= seq![Seq::<char>::empty()]);
        generator
    }

    /// Hands out the next word.
    pub fn get_next_word(&mut self, alphabet: &str) -> (word: String)
        requires
            old(self)@.wf(),
            alphabet@.len() > 0,
        ensures
            word@ == old(self)@.current(),
            final(self)@ == old(self)@.advanced(alphabet@),
            final(self)@.wf(),
    {
        let ghost before = self@;
        let word = self.words[self.next].clone();
        if self.next + 1 < self.words.len() {
            self.next = self.next + 1;
            assert(self@.words =~= before.words);
            return word;
        }
        let count: usize = self.words.len();
        let letters: usize = alphabet.unicode_len();
        let ghost goal = extended(before.words, alphabet@);
        let mut extension: Vec<String> = Vec::new();
        let mut i: usize = 0;
        while i < count
            invariant
                count == self.words.len(),
                letters == alphabet@.len(),
                letters > 0,
                self@ == before,
                goal == extended(before.words, alphabet@),
                i <= count,
                extension.len() == i * letters,
                forall|k: int| 0 <= k < extension.len() ==> (#[trigger] extension[k])@ == goal[k],
            decreases count - i,
        {
            let mut j: usize = 0;
            while j < letters
                invariant
                    count == self.words.len(),
                    letters == alphabet@.len(),
                    letters > 0,
                    self@ == before,
                    goal == extended(before.words, alphabet@),
                    i < count,
                    j <= letters,
                    extension.len() == i * letters + j,
                    forall|k: int| 0 <= k < extension.len() ==> (#[trigger] extension[k])@ == goal[k],
                decreases letters - j,
            {
                let longer = String::from_str(self.words[i].as_str()).concat(alphabet.substring_char(j, j + 1));
                proof {
                    let k = i * letters + j;
                    lemma_fundamental_div_mod_converse(k, letters as int, i as int, j as int);
                    assert(i * letters + j < count * letters) by (nonlinear_arith)
                        requires
                            i < count,
                            j < letters,
                    ;
                    assert(before.words[i as int] == self.words[i as int]@);
                    assert(longer@ =~= before.words[i as int].push(alphabet@[j as int]));
                    assert(goal[k] == before.words[k / letters as int].push(alphabet@[k % letters as int]));
                }
                extension.push(longer);
                j += 1;
            }
            assert((i + 1) * letters == i * letters + letters) by (nonlinear_arith);
            i += 1;
        }
        proof {
            assert(count * letters >= 1) by (nonlinear_arith)
                requires
                    count >= 1,
                    letters >= 1,
            ;
        }
        self.words = extension;
        self.next = 0;
        assert(self@.words =~= goal);
        word
    }
}

/// The answer to an equivalence query.
pub enum EquivalenceCheckResult {
    Equivalent,
    Counterexample(String),
}

impl EquivalenceCheckResult {
    /// The counterexample, if the answer holds one.
    pub open spec fn counterexample(self) -> Option<Seq<char>> {
        match self {
            EquivalenceCheckResult::Equivalent => None,
            EquivalenceCheckResult::Counterexample(word) => Some(word@),
        }
    }
}

/// The verdicts of a hypothesis, as a function of the word.
pub open spec fn verdicts_of<A: Automata>(automata: A) -> spec_fn(Seq<char>) -> bool {
    |word: Seq<char>| automata.verdict(word)
}

/// Whether the text that an oracle program printed accepts the word: the
/// digit one on a line of its own.
pub fn accepts_output(output: &str) -> (accept: bool)
    ensures
        accept == (output@ == seq!['1', '\n']),
{
    if output.unicode_len() != 2 {
        return false;
    }
    let accept: bool = output.get_char(0) == '1' && output.get_char(1) == '\n';
    assert(accept ==> output@ =~= seq!['1', '\n']);
    accept
}

/// A teacher for one target language over one alphabet.
pub trait Mat {
    /// The target language. A teacher that does not say which one it is
    /// teaches a language of which nothing is known.
    open spec fn accepts(&self, word: Seq<char>) -> bool {
        arbitrary()
    }

    /// The working alphabet; nothing is known of it where a teacher does
    /// not say what it is.
    open spec fn alphabet(&self) -> Seq<char> {
        arbitrary()
    }

    /// What an equivalence query finds for a hypothesis with the given
    /// verdicts, from the given state of the generator, and the state in
    /// which it leaves the generator. Nothing is known of it where a
    /// teacher does not say what it is.
    open spec fn outcome(&self, verdict: spec_fn(Seq<char>) -> bool, frontier: Frontier) -> Outcome {
        arbitrary()
    }

    /// Whether `word` belongs to the target language.
    fn check_membership(&self, word: &str) -> (member: bool)
        ensures
            member == self.accepts(word@),
    ;

    /// Looks for a word of the target language that the hypothesis rejects,
    /// among the words that `generator` hands out, asking teacher and
    /// hypothesis about each. `Equivalent` says that none was
    /// found, not that there is none.
    fn check_equivalence<A: Automata>(&self, generator: &mut WordGenerator, automata: &A) -> (result:
        EquivalenceCheckResult)
        requires
            automata.valid(),
            old(generator)@.wf(),
            self.alphabet().len() > 0,
        ensures
            final(generator)@.wf(),
            result.counterexample() == self.outcome(verdicts_of(*automata), old(generator)@).counterexample,
            final(generator)@ == self.outcome(verdicts_of(*automata), old(generator)@).frontier,
            match result.counterexample() {
                Some(word) => self.accepts(word) && !automata.verdict(word),
                None => true,
            },
    ;

    /// The working alphabet.
    fn get_alphabet(&self) -> (alphabet: String)
        ensures
            alphabet@ == self.alphabet(),
    ;
}

/// A procedure that decides the target language.
pub trait Oracle {
    /// The language that the procedure decides. An oracle that does not
    /// say which one it is decides a language of which nothing is known.
    open spec fn accepts(&self, word: Seq<char>) -> bool {
        arbitrary()
    }

    /// Whether `word` belongs to the language.
    fn decide(&self, word: &str) -> (verdict: bool)
        ensures
            verdict == self.accepts(word@),
    ;
}

/// The bounded search: up to `budget` words are drawn. A word of `max_len`
/// characters or more ends the search without a counterexample; a word that
/// the oracle accepts and the hypothesis, by its verdicts, rejects ends it
/// as the counterexample.
pub open spec fn search<O: Oracle>(
    oracle: O,
    verdict: spec_fn(Seq<char>) -> bool,
    alphabet: Seq<char>,
    frontier: Frontier,
    budget: nat,
    max_len: nat,
) -> Outcome
    decreases budget,
{
    if budget == 0 {
        Outcome { counterexample: None, frontier }
    } else {
        let word = frontier.current();
        let rest = frontier.advanced(alphabet);
        if word.len() >= max_len {
            Outcome { counterexample: None, frontier: rest }
        } else if oracle.accepts(word) && !verdict(word) {
            Outcome { counterexample: Some(word), frontier: rest }
        } else {
            search(oracle, verdict, alphabet, rest, (budget - 1) as nat, max_len)
        }
    }
}

/// A teacher that answers membership queries through an oracle and
/// equivalence queries by a bounded search.
pub struct MatImpl<O: Oracle> {
    pub alphabet: String,
    pub oracle: O,
    pub max_tests: usize,
    pub word_max_len: usize,
}

impl<O: Oracle> MatImpl<O> {
    /// A teacher over `alphabet` that tries at most `max_tests` words per
    /// equivalence query, and none of `word_max_len` characters or more.
    pub fn new(alphabet: &str, oracle: O, max_tests: usize, word_max_len: usize) -> (mat: Self)
        ensures
            mat.alphabet@ == alphabet@,
            mat.oracle == oracle,
            mat.max_tests == max_tests,
            mat.word_max_len == word_max_len,
    {
        Self { alphabet: String::from_str(alphabet), oracle, max_tests, word_max_len }
    }
}

impl<O: Oracle> Mat for MatImpl<O> {
    open spec fn accepts(&self, word: Seq<char>) -> bool {
        self.oracle.accepts(word)
    }

    open spec fn alphabet(&self) -> Seq<char> {
        self.alphabet@
    }

    open spec fn outcome(&self, verdict: spec_fn(Seq<char>) -> bool, frontier: Frontier) -> Outcome {
        search(self.oracle, verdict, self.alphabet@, frontier, self.max_tests as nat, self.word_max_len as nat)
    }

    fn check_membership(&self, word: &str) -> (member: bool) {
        self.oracle.decide(word)
    }

    fn check_equivalence<A: Automata>(&self, generator: &mut WordGenerator, automata: &A) -> (result:
        EquivalenceCheckResult)
    {
        let ghost start = generator@;
        let ghost verdict = verdicts_of(*automata);
        let ghost budget = self.max_tests as nat;
        let ghost max_len = self.word_max_len as nat;
        let mut tests: usize = 0;
        while tests < self.max_tests
            invariant
                tests <= self.max_tests,
                automata.valid(),
                generator@.wf(),
                start == old(generator)@,
                verdict == verdicts_of(*automata),
                self.alphabet@.len() > 0,
                budget == self.max_tests,
                max_len == self.word_max_len,
                search(self.oracle, verdict, self.alphabet@, start, budget, max_len) == search(
                    self.oracle,
                    verdict,
                    self.alphabet@,
                    generator@,
                    (budget - tests) as nat,
                    max_len,
                ),
            decreases self.max_tests - tests,
        {
            let ghost before = generator@;
            let ghost left = (budget - tests) as nat;
            let word = generator.get_next_word(self.alphabet.as_str());
            assert(word@ == before.current() && generator@ == before.advanced(self.alphabet@));
            if word.as_str().unicode_len() >= self.word_max_len {
                assert(search(self.oracle, verdict, self.alphabet@, before, left, max_len) == (Outcome {
                    counterexample: None,
                    frontier: generator@,
                }));
                return EquivalenceCheckResult::Equivalent;
            }
            let in_language: bool = self.oracle.decide(word.as_str());
            let in_hypothesis: bool = automata.check_membership(word.as_str());
            assert(verdict(word@) == in_hypothesis);
            if in_language && !in_hypothesis {
                assert(search(self.oracle, verdict, self.alphabet@, before, left, max_len) == (Outcome {
                    counterexample: Some(word@),
                    frontier: generator@,
                }));
                return EquivalenceCheckResult::Counterexample(word);
            }
            assert(search(self.oracle, verdict, self.alphabet@, before, left, max_len) == search(
                self.oracle,
                verdict,
                self.alphabet@,
                generator@,
                (left - 1) as nat,
                max_len,
            ));
            tests += 1;
        }
        EquivalenceCheckResult::Equivalent
    }

    fn get_alphabet(&self) -> (alphabet: String) {
        self.alphabet.clone()
    }
}

} // verus!
