//! The learner: two observation tables and the loop that refines them.
use vstd::prelude::*;
use vstd::string::*;

pub mod checks;
pub mod extended_table;
pub mod hypothesis;
pub mod learning;
pub mod main_table;
pub mod table;

use crate::mat::{Mat, WordGenerator};
use crate::nl::extended_table::{lemma_with_extensions, with_column, with_extensions, ExtendedTable};
use crate::nl::main_table::{column_of, signature_of, MainTable};
use crate::nl::table::{known, Table};

verus! {

/// The position of `word` among `words`; meaningful where it is one of them.
pub open spec fn position(words: Seq<Seq<char>>, word: Seq<char>) -> int {
    choose|i: int| 0 <= i < words.len() && words[i] == word
}

/// `word` is one of `prefixes` followed by one character of `alphabet`.
pub open spec fn extends_one(word: Seq<char>, prefixes: Seq<Seq<char>>, alphabet: Seq<char>) -> bool {
    exists|i: int, a: int|
        0 <= i < prefixes.len() && 0 <= a < alphabet.len() && word == #[trigger] prefixes[i].push(alphabet[a])
}

/// A learner: the teacher it questions, its two tables, and the generator
/// of the words that equivalence queries try.
pub struct NlImpl<'a, M: Mat> {
    pub mat: &'a M,
    pub main_table: MainTable<'a, M>,
    pub extended_table: ExtendedTable<'a, M>,
    pub generator: WordGenerator,
}

/// The tables of a learner as values of mathematics, with the alphabet
/// that they work over.
pub struct Tables {
    pub main: Table,
    pub extended: Table,
    pub alphabet: Seq<char>,
}

impl<'a, M: Mat> View for NlImpl<'a, M> {
    type V = Tables;

    open spec fn view(&self) -> Tables {
        Tables { main: self.main_table@, extended: self.extended_table@, alphabet: self.mat.alphabet() }
    }
}

/// What the search for an uncovered row finds.
pub enum CompletenessCheckResult {
    Complete,
    UncoveredPrefix(String),
}

/// What the search for a distinguishing suffix finds.
pub enum ConsistencyCheckResult {
    Consistent,
    DistinguishingSuffix(String),
}

/// The main table after `prefix` was inserted; the table itself where it
/// knows the prefix.
pub open spec fn main_with<M: Mat>(table: Table, mat: &M, prefix: Seq<char>) -> Table {
    if known(table.prefixes, prefix) {
        table
    } else {
        table.with_prefix(prefix, signature_of(mat, prefix, table.suffixes))
    }
}

/// The main table after the prefixes of `word` of one to `upto`
/// characters were inserted, the shortest first.
pub open spec fn main_with_prefixes<M: Mat>(table: Table, mat: &M, word: Seq<char>, upto: int) -> Table
    decreases upto,
{
    if upto <= 0 {
        table
    } else {
        main_with(main_with_prefixes(table, mat, word, upto - 1), mat, word.subrange(0, upto))
    }
}

/// The extended table after the one-letter extensions of the prefixes of
/// `word` of one to `upto` characters were inserted, the shortest prefix
/// first.
pub open spec fn extended_with_prefixes<M: Mat>(table: Table, mat: &M, word: Seq<char>, upto: int) -> Table
    decreases upto,
{
    if upto <= 0 {
        table
    } else {
        with_extensions(
            extended_with_prefixes(table, mat, word, upto - 1),
            mat,
            word.subrange(0, upto),
            mat.alphabet(),
            mat.alphabet().len() as int,
        )
    }
}

/// The main table after `suffix` was inserted; the table itself where it
/// knows the suffix.
pub open spec fn main_with_suffix<M: Mat>(table: Table, mat: &M, suffix: Seq<char>) -> Table {
    if known(table.suffixes, suffix) {
        table
    } else {
        table.with_suffix(suffix, column_of(mat, table.prefixes, suffix))
    }
}

/// The extended table after `suffix` was inserted; the table itself where
/// it knows the suffix.
pub open spec fn extended_with_suffix<M: Mat>(table: Table, mat: &M, suffix: Seq<char>) -> Table {
    if known(table.suffixes, suffix) {
        table
    } else {
        with_column(table, mat, suffix)
    }
}

impl<'a, M: Mat> NlImpl<'a, M> {
    /// Every one-letter extension of every prefix of the main table is a
    /// prefix of the extended table.
    pub open spec fn extensions_known(&self) -> bool {
        forall|i: int, a: int|
            0 <= i < self.main_table@.prefixes.len() && 0 <= a < self.mat.alphabet().len() ==> known(
                self.extended_table@.prefixes,
                #[trigger] self.main_table@.prefixes[i].push(self.mat.alphabet()[a]),
            )
    }

    /// Every prefix of the extended table is a one-letter extension of a
    /// prefix of the main table.
    pub open spec fn only_extensions(&self) -> bool {
        forall|e: int|
            0 <= e < self.extended_table@.prefixes.len() ==> extends_one(
                #[trigger] self.extended_table@.prefixes[e],
                self.main_table@.prefixes,
                self.mat.alphabet(),
            )
    }

    /// The learner is well formed: both tables are, over the same teacher
    /// and the same suffixes; the main table holds the empty prefix and the
    /// empty suffix; the prefixes of the extended table are exactly the
    /// one-letter extensions of those of the main table; the alphabet is
    /// not empty and the generator has a next word.
    pub open spec fn wf(&self) -> bool {
        &&& self.main_table.wf()
        &&& self.extended_table.wf()
        &&& self.main_table.mat == self.mat
        &&& self.extended_table.mat == self.mat
        &&& self.main_table@.seeded()
        &&& self.main_table@.suffixes == self.extended_table@.suffixes
        &&& self.extensions_known()
        &&& self.only_extensions()
        &&& self.mat.alphabet().len() > 0
        &&& self.generator@.wf()
    }

    /// A learner that has asked about nothing but the empty word and the
    /// one-letter words.
    pub fn new(mat: &'a M) -> (nl: Self)
        requires
            mat.alphabet().len() > 0,
        ensures
            nl.wf(),
            nl.mat == mat,
            nl.main_table@ == (Table {
                prefixes: seq![Seq::<char>::empty()],
                suffixes: seq![Seq::<char>::empty()],
                rows: seq![seq![mat.accepts(Seq::<char>::empty())]],
                basic: seq![0int],
            }),
            nl.extended_table@ == with_column(
                with_extensions(
                    (Table { prefixes: Seq::empty(), suffixes: Seq::empty(), rows: Seq::empty(), basic: Seq::empty() }),
                    mat,
                    Seq::<char>::empty(),
                    mat.alphabet(),
                    mat.alphabet().len() as int,
                ),
                mat,
                Seq::<char>::empty(),
            ),
            nl.generator@.words == seq![Seq::<char>::empty()],
            nl.generator@.next == 0,
    {
        let main_table = MainTable::new(mat);
        let extended_table = ExtendedTable::new(mat);
        let nl = Self { mat, main_table, extended_table, generator: WordGenerator::new() };
        proof {
            let blank = Table { prefixes: Seq::empty(), suffixes: Seq::empty(), rows: Seq::empty(), basic: Seq::empty() };
            let empty = Seq::<char>::empty();
            lemma_with_extensions(blank, mat, empty, mat.alphabet(), mat.alphabet().len() as int);
            let filled = with_extensions(blank, mat, empty, mat.alphabet(), mat.alphabet().len() as int);
            assert(nl.extended_table@.prefixes == filled.prefixes);
            assert(nl.main_table@.prefixes[0] =~= empty);
            assert(nl.main_table@.suffixes[0] =~= empty);
            assert(nl.main_table@.suffixes =~= seq![empty]);
            assert(nl.extensions_known());
            assert forall|e: int| 0 <= e < nl.extended_table@.prefixes.len() implies extends_one(
                #[trigger] nl.extended_table@.prefixes[e],
                nl.main_table@.prefixes,
                nl.mat.alphabet(),
            ) by {
                let a = choose|a: int|
                    0 <= a < mat.alphabet().len() && #[trigger] filled.prefixes[e] == empty.push(
                        #[trigger] mat.alphabet()[a],
                    );
                assert(nl.extended_table@.prefixes[e] == nl.main_table@.prefixes[0].push(nl.mat.alphabet()[a]));
            }
        }
        nl
    }

    /// Inserts a prefix into the main table, and its one-letter extensions
    /// into the extended table.
    pub fn insert_prefix(&mut self, prefix: &str)
        requires
            old(self).wf(),
        ensures
            final(self).wf(),
            final(self).mat == old(self).mat,
            final(self).generator == old(self).generator,
            known(old(self).main_table@.prefixes, prefix@) ==> final(self).main_table == old(self).main_table,
            final(self).main_table@ == main_with(old(self).main_table@, old(self).mat, prefix@),
            final(self).extended_table@ == with_extensions(
                old(self).extended_table@,
                old(self).mat,
                prefix@,
                old(self).mat.alphabet(),
                old(self).mat.alphabet().len() as int,
            ),
    {
        let ghost main_before = self.main_table@;
        let ghost ext_before = self.extended_table@;
        let ghost alphabet = self.mat.alphabet();
        self.main_table.insert_prefix(prefix);
        self.extended_table.insert_prefix(prefix);
        proof {
            let main_now = self.main_table@;
            let ext_now = self.extended_table@;
            lemma_with_extensions(ext_before, self.mat, prefix@, alphabet, alphabet.len() as int);
            assert forall|i: int, a: int| 0 <= i < main_now.prefixes.len() && 0 <= a < alphabet.len() implies known(
                ext_now.prefixes,
                #[trigger] main_now.prefixes[i].push(alphabet[a]),
            ) by {
                if i < main_before.prefixes.len() {
                    assert(main_now.prefixes[i] == main_before.prefixes[i]);
                    let word = main_before.prefixes[i].push(alphabet[a]);
                    assert(known(ext_before.prefixes, word));
                    let e = choose|e: int| 0 <= e < ext_before.prefixes.len() && ext_before.prefixes[e] == word;
                    assert(ext_now.prefixes[e] == ext_before.prefixes[e]);
                } else {
                    assert(main_now.prefixes[i] == prefix@);
                }
            }
            assert forall|e: int| 0 <= e < ext_now.prefixes.len() implies extends_one(
                #[trigger] ext_now.prefixes[e],
                main_now.prefixes,
                alphabet,
            ) by {
                if e < ext_before.prefixes.len() {
                    assert(ext_now.prefixes[e] == ext_before.prefixes[e]);
                    assert(extends_one(ext_before.prefixes[e], main_before.prefixes, alphabet));
                    let (i, a) = choose|i: int, a: int|
                        0 <= i < main_before.prefixes.len() && 0 <= a < alphabet.len() && ext_before.prefixes[e]
                            == #[trigger] main_before.prefixes[i].push(alphabet[a]);
                    assert(main_now.prefixes[i] == main_before.prefixes[i]);
                    assert(ext_now.prefixes[e] == main_now.prefixes[i].push(alphabet[a]));
                } else {
                    let a = choose|a: int|
                        0 <= a < alphabet.len() && #[trigger] ext_now.prefixes[e] == prefix@.push(#[trigger] alphabet[a]);
                    if known(main_before.prefixes, prefix@) {
                        let i = choose|i: int| 0 <= i < main_before.prefixes.len() && main_before.prefixes[i] == prefix@;
                        assert(main_now.prefixes[i] == prefix@);
                        assert(ext_now.prefixes[e] == main_now.prefixes[i].push(alphabet[a]));
                    } else {
                        let i = main_before.prefixes.len() as int;
                        assert(main_now.prefixes[i] == prefix@);
                        assert(ext_now.prefixes[e] == main_now.prefixes[i].push(alphabet[a]));
                    }
                }
            }
        }
    }

    /// Inserts a suffix into both tables.
    pub fn insert_suffix(&mut self, suffix: &str)
        requires
            old(self).wf(),
        ensures
            final(self).wf(),
            final(self).mat == old(self).mat,
            final(self).generator == old(self).generator,
            known(old(self).main_table@.suffixes, suffix@) ==> final(self).main_table == old(self).main_table
                && final(self).extended_table == old(self).extended_table,
            final(self).main_table@ == main_with_suffix(old(self).main_table@, old(self).mat, suffix@),
            final(self).extended_table@ == extended_with_suffix(old(self).extended_table@, old(self).mat, suffix@),
    {
        let ghost main_before = self.main_table@;
        let ghost ext_before = self.extended_table@;
        self.main_table.insert_suffix(suffix);
        self.extended_table.insert_suffix(suffix);
        proof {
            let main_now = self.main_table@;
            let ext_now = self.extended_table@;
            assert(main_now.suffixes == ext_now.suffixes);
            assert(ext_now.prefixes == ext_before.prefixes);
            assert(main_now.prefixes == main_before.prefixes);
            assert(self.main_table@.seeded());
            assert(self.extensions_known()) by {
                assert forall|i: int, a: int|
                    0 <= i < main_now.prefixes.len() && 0 <= a < self.mat.alphabet().len() implies known(
                    ext_now.prefixes,
                    #[trigger] main_now.prefixes[i].push(self.mat.alphabet()[a]),
                ) by {
                    assert(known(ext_before.prefixes, main_before.prefixes[i].push(old(self).mat.alphabet()[a])));
                }
            }
            assert(self.only_extensions()) by {
                assert forall|e: int| 0 <= e < ext_now.prefixes.len() implies extends_one(
                    #[trigger] ext_now.prefixes[e],
                    main_now.prefixes,
                    self.mat.alphabet(),
                ) by {
                    assert(extends_one(ext_before.prefixes[e], main_before.prefixes, old(self).mat.alphabet()));
                }
            }
        }
    }

    /// Inserts every proper prefix of `prefix` but the empty one, the
    /// shortest first.
    pub fn insert_prefix_recursive(&mut self, prefix: &str)
        requires
            old(self).wf(),
        ensures
            final(self).wf(),
            final(self).mat == old(self).mat,
            final(self).generator == old(self).generator,
            forall|i: int|
                1 <= i < prefix@.len() ==> known(final(self).main_table@.prefixes, #[trigger] prefix@.subrange(0, i)),
            old(self).main_table@.prefixes.len() <= final(self).main_table@.prefixes.len(),
            forall|p: int|
                0 <= p < old(self).main_table@.prefixes.len() ==> final(self).main_table@.prefixes[p] == old(
                    self,
                ).main_table@.prefixes[p],
            final(self).main_table@.suffixes == old(self).main_table@.suffixes,
            final(self).main_table@ == main_with_prefixes(old(self).main_table@, old(self).mat, prefix@, prefix@.len() - 1),
            final(self).extended_table@ == extended_with_prefixes(
                old(self).extended_table@,
                old(self).mat,
                prefix@,
                prefix@.len() - 1,
            ),
    {
        let len: usize = prefix.unicode_len();
        let mut i: usize = 1;
        while i < len
            invariant
                self.wf(),
                self.main_table@ == main_with_prefixes(old(self).main_table@, old(self).mat, prefix@, i - 1),
                self.extended_table@ == extended_with_prefixes(old(self).extended_table@, old(self).mat, prefix@, i - 1),
                self.mat == old(self).mat,
                self.generator == old(self).generator,
                len == prefix@.len(),
                1 <= i,
                i <= len || i == 1,
                forall|k: int| 1 <= k < i && k < len ==> known(self.main_table@.prefixes, #[trigger] prefix@.subrange(0, k)),
                old(self).main_table@.prefixes.len() <= self.main_table@.prefixes.len(),
                forall|p: int|
                    0 <= p < old(self).main_table@.prefixes.len() ==> self.main_table@.prefixes[p] == old(
                        self,
                    ).main_table@.prefixes[p],
                self.main_table@.suffixes == old(self).main_table@.suffixes,
            decreases len - i,
        {
            let ghost before = self.main_table@;
            let part = prefix.substring_char(0, i);
            self.insert_prefix(part);
            proof {
                let now = self.main_table@;
                assert(before.prefixes.len() <= now.prefixes.len());
                assert forall|p: int| 0 <= p < before.prefixes.len() implies now.prefixes[p] == before.prefixes[p] by {}
                assert forall|k: int| 1 <= k < i + 1 && k < len implies known(
                    now.prefixes,
                    #[trigger] prefix@.subrange(0, k),
                ) by {
                    let word = prefix@.subrange(0, k);
                    if k < i {
                        let p = choose|p: int| 0 <= p < before.prefixes.len() && before.prefixes[p] == word;
                        assert(now.prefixes[p] == word);
                    } else if known(before.prefixes, word) {
                        let p = choose|p: int| 0 <= p < before.prefixes.len() && before.prefixes[p] == word;
                        assert(now.prefixes[p] == word);
                    } else {
                        assert(now.prefixes[before.prefixes.len() as int] == word);
                    }
                }
            }
            i += 1;
        }
        proof {
            if len == 0 {
                assert(main_with_prefixes(old(self).main_table@, old(self).mat, prefix@, 0) == main_with_prefixes(
                    old(self).main_table@,
                    old(self).mat,
                    prefix@,
                    -1,
                ));
                assert(extended_with_prefixes(old(self).extended_table@, old(self).mat, prefix@, 0)
                    == extended_with_prefixes(old(self).extended_table@, old(self).mat, prefix@, -1));
            }
        }
    }
}

} // verus!
