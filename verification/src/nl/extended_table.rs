//! The extended observation table: the rows of the one-letter extensions of
//! the prefixes of the main table.
use vstd::prelude::*;
use vstd::string::*;

use crate::mat::Mat;
use crate::nl::main_table::{column_of, concat, position_of, rows_view, signature_of, words_view};
use crate::nl::table::{distinct, known, Table};

verus! {

/// The table after the word was inserted as a prefix with its row; the
/// table itself where it knows the word.
pub open spec fn with_word<M: Mat>(table: Table, mat: &M, word: Seq<char>) -> Table {
    if known(table.prefixes, word) {
        table
    } else {
        Table {
            prefixes: table.prefixes.push(word),
            rows: table.rows.push(signature_of(mat, word, table.suffixes)),
            ..table
        }
    }
}

/// The table after `prefix` followed by each of the first `upto` characters
/// of `alphabet` was inserted, in the order of the alphabet.
pub open spec fn with_extensions<M: Mat>(table: Table, mat: &M, prefix: Seq<char>, alphabet: Seq<char>, upto: int) -> Table
    decreases upto,
{
    if upto <= 0 {
        table
    } else {
        with_word(with_extensions(table, mat, prefix, alphabet, upto - 1), mat, prefix.push(alphabet[upto - 1]))
    }
}

/// The table after a suffix that it does not know was inserted with its
/// column.
pub open spec fn with_column<M: Mat>(table: Table, mat: &M, suffix: Seq<char>) -> Table {
    Table {
        suffixes: table.suffixes.push(suffix),
        rows: Seq::new(table.rows.len(), |i: int| table.rows[i].push(mat.accepts(table.prefixes[i] + suffix))),
        ..table
    }
}

/// Inserting extensions keeps the suffixes and what was known, and every
/// extension inserted is known afterwards.
pub proof fn lemma_with_extensions<M: Mat>(table: Table, mat: &M, prefix: Seq<char>, alphabet: Seq<char>, upto: int)
    requires
        0 <= upto <= alphabet.len(),
    ensures
        with_extensions(table, mat, prefix, alphabet, upto).suffixes == table.suffixes,
        with_extensions(table, mat, prefix, alphabet, upto).basic == table.basic,
        table.prefixes.len() <= with_extensions(table, mat, prefix, alphabet, upto).prefixes.len(),
        forall|i: int|
            0 <= i < table.prefixes.len() ==> with_extensions(table, mat, prefix, alphabet, upto).prefixes[i]
                == #[trigger] table.prefixes[i],
        forall|a: int|
            0 <= a < upto ==> known(
                with_extensions(table, mat, prefix, alphabet, upto).prefixes,
                #[trigger] prefix.push(alphabet[a]),
            ),
        forall|i: int|
            table.prefixes.len() <= i < with_extensions(table, mat, prefix, alphabet, upto).prefixes.len() ==> exists|
                a: int,
            |
                0 <= a < upto && #[trigger] with_extensions(table, mat, prefix, alphabet, upto).prefixes[i]
                    == prefix.push(#[trigger] alphabet[a]),
    decreases upto,
{
    if upto > 0 {
        lemma_with_extensions(table, mat, prefix, alphabet, upto - 1);
        let before = with_extensions(table, mat, prefix, alphabet, upto - 1);
        let after = with_extensions(table, mat, prefix, alphabet, upto);
        let word = prefix.push(alphabet[upto - 1]);
        assert forall|a: int| 0 <= a < upto implies known(after.prefixes, #[trigger] prefix.push(alphabet[a])) by {
            if a < upto - 1 {
                let i = choose|i: int| 0 <= i < before.prefixes.len() && before.prefixes[i] == prefix.push(alphabet[a]);
                assert(after.prefixes[i] == prefix.push(alphabet[a]));
            } else if known(before.prefixes, word) {
            } else {
                assert(after.prefixes[before.prefixes.len() as int] == word);
            }
        }
        assert forall|i: int| table.prefixes.len() <= i < after.prefixes.len() implies exists|a: int|
            0 <= a < upto && #[trigger] after.prefixes[i] == prefix.push(#[trigger] alphabet[a]) by {
            if i < before.prefixes.len() {
                let a = choose|a: int|
                    0 <= a < upto - 1 && #[trigger] before.prefixes[i] == prefix.push(#[trigger] alphabet[a]);
                assert(after.prefixes[i] == prefix.push(alphabet[a]));
            } else {
                assert(after.prefixes[i] == prefix.push(alphabet[upto - 1]));
            }
        }
    }
}

/// Where the table knows every extension to be inserted, inserting them
/// leaves it as it is.
pub proof fn lemma_known_extensions<M: Mat>(table: Table, mat: &M, prefix: Seq<char>, alphabet: Seq<char>, upto: int)
    requires
        0 <= upto <= alphabet.len(),
        forall|a: int| 0 <= a < upto ==> known(table.prefixes, #[trigger] prefix.push(alphabet[a])),
    ensures
        with_extensions(table, mat, prefix, alphabet, upto) == table,
    decreases upto,
{
    if upto > 0 {
        lemma_known_extensions(table, mat, prefix, alphabet, upto - 1);
        assert(known(table.prefixes, prefix.push(alphabet[upto - 1])));
    }
}

/// The extended observation table of a learner.
pub struct ExtendedTable<'a, M: Mat> {
    pub mat: &'a M,
    /// The working alphabet, as the teacher gave it.
    pub alphabet: String,
    /// The known prefixes, in the order of their insertion.
    pub prefixes: Vec<String>,
    /// The known suffixes, in the order of their insertion.
    pub suffixes: Vec<String>,
    /// For each prefix, which suffixes its signature holds.
    pub prefix_to_membership_suffixes: Vec<Vec<bool>>,
}

impl<'a, M: Mat> View for ExtendedTable<'a, M> {
    type V = Table;

    open spec fn view(&self) -> Table {
        Table {
            prefixes: words_view(self.prefixes@),
            suffixes: words_view(self.suffixes@),
            rows: rows_view(self.prefix_to_membership_suffixes@),
            basic: Seq::empty(),
        }
    }
}

impl<'a, M: Mat> ExtendedTable<'a, M> {
    /// Every verdict of the table is the answer of the teacher: the row of
    /// a prefix holds a suffix exactly if the teacher accepts the prefix
    /// followed by the suffix.
    pub open spec fn answers(&self) -> bool {
        forall|i: int, j: int|
            0 <= i < self.prefixes.len() && 0 <= j < self.suffixes.len() ==> #[trigger] self@.rows[i][j]
                == self.mat.accepts(self@.prefixes[i] + self@.suffixes[j])
    }

    /// The table is well formed: it has the shape of a table, holds the
    /// answers of the teacher, and works over the alphabet of the teacher.
    pub open spec fn wf(&self) -> bool {
        &&& self@.framed()
        &&& self.answers()
        &&& self.alphabet@ == self.mat.alphabet()
    }

    /// Inserts one word as a prefix; a word that the table knows changes
    /// nothing.
    pub fn insert_prefix_impl(&mut self, prefix: &str)
        requires
            old(self).wf(),
        ensures
            final(self).wf(),
            final(self).mat == old(self).mat,
            final(self).alphabet == old(self).alphabet,
            known(old(self)@.prefixes, prefix@) ==> *final(self) == *old(self),
            final(self)@ == with_word(old(self)@, old(self).mat, prefix@),
    {
        match position_of(&self.prefixes, prefix) {
            Some(i) => {
                assert(words_view(self.prefixes@)[i as int] == prefix@);
                return ;
            },
            None => {},
        }
        let ghost start = self@;
        let ghost goal = signature_of(self.mat, prefix@, start.suffixes);
        let mut membership_suffixes: Vec<bool> = Vec::new();
        let mut j: usize = 0;
        while j < self.suffixes.len()
            invariant
                *self == *old(self),
                start == self@,
                goal == signature_of(self.mat, prefix@, start.suffixes),
                j <= self.suffixes.len(),
                membership_suffixes.len() == j,
                forall|b: int| 0 <= b < j ==> membership_suffixes[b] == goal[b],
            decreases self.suffixes.len() - j,
        {
            let word = concat(prefix, self.suffixes[j].as_str());
            assert(start.suffixes[j as int] == self.suffixes[j as int]@);
            let member: bool = self.mat.check_membership(word.as_str());
            membership_suffixes.push(member);
            j += 1;
        }
        assert(membership_suffixes@ =~= goal);
        self.prefixes.push(String::from_str(prefix));
        self.prefix_to_membership_suffixes.push(membership_suffixes);
        proof {
            let now = self@;
            let fresh = start.prefixes.len() as int;
            assert(now.prefixes =~= start.prefixes.push(prefix@));
            assert(now.rows =~= start.rows.push(goal));
            assert(now.suffixes =~= start.suffixes);
            assert(distinct(now.prefixes)) by {
                assert forall|a: int, b: int|
                    0 <= a < now.prefixes.len() && 0 <= b < now.prefixes.len() && a != b implies now.prefixes[a]
                    != now.prefixes[b] by {
                    if a == fresh {
                        assert(start.prefixes[b] == now.prefixes[b]);
                    } else if b == fresh {
                        assert(start.prefixes[a] == now.prefixes[a]);
                    } else {
                        assert(start.prefixes[a] == now.prefixes[a]);
                        assert(start.prefixes[b] == now.prefixes[b]);
                    }
                }
            }
            assert(now.framed());
            assert forall|a: int, b: int|
                0 <= a < self.prefixes.len() && 0 <= b < self.suffixes.len() implies #[trigger] now.rows[a][b]
                == self.mat.accepts(now.prefixes[a] + now.suffixes[b]) by {
                if a < fresh {
                    assert(start.rows[a][b] == old(self).mat.accepts(start.prefixes[a] + start.suffixes[b]));
                }
            }
        }
    }

    /// Inserts the one-letter extensions of `prefix`, in the order of the
    /// alphabet. Those that the table knows change nothing.
    pub fn insert_prefix(&mut self, prefix: &str)
        requires
            old(self).wf(),
        ensures
            final(self).wf(),
            final(self).mat == old(self).mat,
            final(self).alphabet == old(self).alphabet,
            final(self)@ == with_extensions(
                old(self)@,
                old(self).mat,
                prefix@,
                old(self).alphabet@,
                old(self).alphabet@.len() as int,
            ),
            (forall|a: int|
                0 <= a < old(self).alphabet@.len() ==> known(
                    old(self)@.prefixes,
                    #[trigger] prefix@.push(old(self).alphabet@[a]),
                )) ==> *final(self) == *old(self),
    {
        let alphabet = self.alphabet.clone();
        let letters: usize = alphabet.as_str().unicode_len();
        let mut a: usize = 0;
        while a < letters
            invariant
                self.wf(),
                (forall|a: int|
                    0 <= a < old(self).alphabet@.len() ==> known(
                        old(self)@.prefixes,
                        #[trigger] prefix@.push(old(self).alphabet@[a]),
                    )) ==> *self == *old(self),
                self.mat == old(self).mat,
                self.alphabet == old(self).alphabet,
                alphabet@ == self.alphabet@,
                letters == alphabet@.len(),
                a <= letters,
                self@ == with_extensions(old(self)@, old(self).mat, prefix@, alphabet@, a as int),
            decreases letters - a,
        {
            let new_prefix = concat(prefix, alphabet.as_str().substring_char(a, a + 1));
            assert(new_prefix@ =~= prefix@.push(alphabet@[a as int]));
            self.insert_prefix_impl(new_prefix.as_str());
            a += 1;
        }
    }

    /// Inserts a suffix. A suffix that the table knows changes nothing. For
    /// a new one the teacher is asked about every prefix followed by it.
    pub fn insert_suffix(&mut self, suffix: &str)
        requires
            old(self).wf(),
        ensures
            final(self).wf(),
            final(self).mat == old(self).mat,
            final(self).alphabet == old(self).alphabet,
            known(old(self)@.suffixes, suffix@) ==> *final(self) == *old(self),
            !known(old(self)@.suffixes, suffix@) ==> final(self)@ == with_column(old(self)@, old(self).mat, suffix@),
    {
        match position_of(&self.suffixes, suffix) {
            Some(j) => {
                assert(words_view(self.suffixes@)[j as int] == suffix@);
                return ;
            },
            None => {},
        }
        let ghost start = self@;
        let count: usize = self.prefixes.len();
        let mut i: usize = 0;
        while i < count
            invariant
                old(self).wf(),
                start == old(self)@,
                count == self.prefixes.len(),
                i <= count,
                self.mat == old(self).mat,
                self.alphabet == old(self).alphabet,
                self.prefixes == old(self).prefixes,
                self.suffixes == old(self).suffixes,
                self.prefix_to_membership_suffixes.len() == count,
                forall|a: int|
                    0 <= a < i ==> (#[trigger] self.prefix_to_membership_suffixes[a])@ == start.rows[a].push(
                        self.mat.accepts(start.prefixes[a] + suffix@),
                    ),
                forall|a: int|
                    i <= a < count ==> #[trigger] self.prefix_to_membership_suffixes[a] == old(
                        self,
                    ).prefix_to_membership_suffixes[a],
            decreases count - i,
        {
            let word = concat(self.prefixes[i].as_str(), suffix);
            assert(start.prefixes[i as int] == self.prefixes[i as int]@);
            assert(start.rows[i as int] == old(self).prefix_to_membership_suffixes[i as int]@);
            let member: bool = self.mat.check_membership(word.as_str());
            self.prefix_to_membership_suffixes[i].push(member);
            i += 1;
        }
        self.suffixes.push(String::from_str(suffix));
        proof {
            let now = self@;
            let goal = with_column(start, self.mat, suffix@);
            let fresh = start.suffixes.len() as int;
            assert(now.suffixes =~= goal.suffixes);
            assert(now.prefixes =~= goal.prefixes);
            assert(now.rows =~= goal.rows);
            assert(distinct(now.suffixes)) by {
                assert forall|a: int, b: int|
                    0 <= a < now.suffixes.len() && 0 <= b < now.suffixes.len() && a != b implies now.suffixes[a]
                    != now.suffixes[b] by {
                    if a == fresh {
                        assert(start.suffixes[b] == now.suffixes[b]);
                    } else if b == fresh {
                        assert(start.suffixes[a] == now.suffixes[a]);
                    } else {
                        assert(start.suffixes[a] == now.suffixes[a]);
                        assert(start.suffixes[b] == now.suffixes[b]);
                    }
                }
            }
            assert forall|a: int| 0 <= a < now.rows.len() implies (#[trigger] now.rows[a]).len() == now.suffixes.len() by {
                assert(start.rows[a].len() == start.suffixes.len());
            }
            assert(now.framed());
            assert forall|a: int, b: int|
                0 <= a < self.prefixes.len() && 0 <= b < self.suffixes.len() implies #[trigger] now.rows[a][b]
                == self.mat.accepts(now.prefixes[a] + now.suffixes[b]) by {
                assert(start.rows[a].len() == start.suffixes.len());
                if b < fresh {
                    assert(start.rows[a][b] == old(self).mat.accepts(start.prefixes[a] + start.suffixes[b]));
                }
            }
        }
    }

    /// The table of a learner that has asked nothing but the empty word:
    /// the one-letter words as prefixes, and the empty suffix.
    pub fn new(mat: &'a M) -> (table: Self)
        ensures
            table.wf(),
            table.mat == mat,
            table@.suffixes == seq![Seq::<char>::empty()],
            table@ == with_column(
                with_extensions(
                    (Table { prefixes: Seq::empty(), suffixes: Seq::empty(), rows: Seq::empty(), basic: Seq::empty() }),
                    mat,
                    Seq::<char>::empty(),
                    mat.alphabet(),
                    mat.alphabet().len() as int,
                ),
                mat,
                Seq::<char>::empty(),
            ),
    {
        let mut table = Self {
            mat,
            alphabet: mat.get_alphabet(),
            prefixes: Vec::new(),
            suffixes: Vec::new(),
            prefix_to_membership_suffixes: Vec::new(),
        };
        let ghost blank = Table { prefixes: Seq::empty(), suffixes: Seq::empty(), rows: Seq::empty(), basic: Seq::empty() };
        proof {
            reveal_strlit("");
            assert(""@ =~= Seq::<char>::empty());
            assert(table@.prefixes =~= blank.prefixes);
            assert(table@.suffixes =~= blank.suffixes);
            assert(table@.rows =~= blank.rows);
        }
        table.insert_prefix("");
        proof {
            lemma_with_extensions(blank, mat, Seq::<char>::empty(), mat.alphabet(), mat.alphabet().len() as int);
            assert(!known(table@.suffixes, Seq::<char>::empty()));
        }
        table.insert_suffix("");
        assert(table@.suffixes =~= seq![Seq::<char>::empty()]);
        table
    }
}

/// Signature consistency: in a well-formed table, the signature of a known
/// prefix holds a known suffix exactly if the teacher accepts the prefix
/// followed by the suffix.
pub proof fn lemma_extended_signature_consistency<'a, M: Mat>(table: &ExtendedTable<'a, M>, i: int, j: int)
    requires
        table.wf(),
        0 <= i < table@.prefixes.len(),
        0 <= j < table@.suffixes.len(),
    ensures
        table@.signature(i).contains(table@.suffixes[j]) <==> table.mat.accepts(table@.prefixes[i] + table@.suffixes[j]),
{
    let t = table@;
    assert(t.rows[i][j] == table.mat.accepts(t.prefixes[i] + t.suffixes[j]));
    if t.signature(i).contains(t.suffixes[j]) {
        let b = choose|b: int| 0 <= b < t.suffixes.len() && t.suffixes[b] == t.suffixes[j] && t.rows[i][b];
        assert(b == j);
    }
}

} // verus!
