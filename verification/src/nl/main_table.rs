//! The main observation table: prefixes, suffixes, the verdict of the
//! teacher on every prefix followed by every suffix, and the basic prefixes.
use vstd::prelude::*;
use vstd::string::*;

use crate::automata::{same_flags, unset_flags};
use crate::mat::Mat;
use crate::nl::table::{
    canonical_before_last, distinct, inhabited_row, known, lemma_cleaned_shaped, lemma_equivalent_basic,
    lemma_promoted_shaped, lemma_last_fits, lemma_replaced_shaped, lemma_representative, within, CoverageMode, Table,
};

verus! {

/// The words that a vector of strings holds.
pub open spec fn words_view(words: Seq<String>) -> Seq<Seq<char>> {
    Seq::new(words.len(), |i: int| words[i]@)
}

/// The rows that a vector of vectors of verdicts holds.
pub open spec fn rows_view(rows: Seq<Vec<bool>>) -> Seq<Seq<bool>> {
    Seq::new(rows.len(), |i: int| rows[i]@)
}

/// The positions that a vector of indices holds.
pub open spec fn positions_view(positions: Seq<usize>) -> Seq<int> {
    Seq::new(positions.len(), |k: int| positions[k] as int)
}

/// The row of a prefix: the verdict of the teacher on the prefix followed
/// by each suffix.
pub open spec fn signature_of<M: Mat>(mat: &M, prefix: Seq<char>, suffixes: Seq<Seq<char>>) -> Seq<bool> {
    Seq::new(suffixes.len(), |j: int| mat.accepts(prefix + suffixes[j]))
}

/// The column of a suffix: the verdict of the teacher on each prefix
/// followed by the suffix.
pub open spec fn column_of<M: Mat>(mat: &M, prefixes: Seq<Seq<char>>, suffix: Seq<char>) -> Seq<bool> {
    Seq::new(prefixes.len(), |i: int| mat.accepts(prefixes[i] + suffix))
}

/// The position of `word` among `words`, if it is one of them.
pub fn position_of(words: &Vec<String>, word: &str) -> (found: Option<usize>)
    ensures
        match found {
            Some(i) => i < words.len() && words[i as int]@ == word@ && forall|k: int|
                0 <= k < i ==> (#[trigger] words[k])@ != word@,
            None => !known(words_view(words@), word@),
        },
{
    let wanted = String::from_str(word);
    let mut i: usize = 0;
    while i < words.len()
        invariant
            i <= words.len(),
            wanted@ == word@,
            forall|k: int| 0 <= k < i ==> (#[trigger] words[k])@ != word@,
        decreases words.len() - i,
    {
        if words[i] == wanted {
            return Some(i);
        }
        i += 1;
    }
    proof {
        if known(words_view(words@), word@) {
            let k = choose|k: int| 0 <= k < words_view(words@).len() && words_view(words@)[k] == word@;
            assert(words[k]@ == word@);
        }
    }
    None
}

/// One word followed by another.
pub fn concat(left: &str, right: &str) -> (word: String)
    ensures
        word@ == left@ + right@,
{
    String::from_str(left).concat(right)
}

/// Whether the row holds a suffix.
pub fn holds_any(row: &Vec<bool>) -> (any: bool)
    ensures
        any == inhabited_row(row@),
{
    let mut j: usize = 0;
    while j < row.len()
        invariant
            j <= row.len(),
            forall|b: int| 0 <= b < j ==> !row[b],
        decreases row.len() - j,
    {
        if row[j] {
            return true;
        }
        j += 1;
    }
    false
}

/// Whether every suffix of `inner` is one of `outer`.
pub fn is_within(inner: &Vec<bool>, outer: &Vec<bool>) -> (subset: bool)
    requires
        inner.len() == outer.len(),
    ensures
        subset == within(inner@, outer@),
{
    let mut j: usize = 0;
    while j < inner.len()
        invariant
            inner.len() == outer.len(),
            j <= inner.len(),
            forall|b: int| 0 <= b < j && inner[b] ==> outer[b],
        decreases inner.len() - j,
    {
        if inner[j] && !outer[j] {
            return false;
        }
        j += 1;
    }
    true
}

/// The main observation table of a learner.
pub struct MainTable<'a, M: Mat> {
    pub mat: &'a M,
    /// The known prefixes, in the order of their insertion.
    pub prefixes: Vec<String>,
    /// The basic prefixes, by their positions in `prefixes`.
    pub basic_prefixes: Vec<usize>,
    /// The known suffixes, in the order of their insertion.
    pub suffixes: Vec<String>,
    /// For each prefix, which suffixes its signature holds.
    pub prefix_to_membership_suffixes: Vec<Vec<bool>>,
    /// For each suffix, which prefixes hold it in their signature.
    pub suffix_to_membership_prefixes: Vec<Vec<bool>>,
}

/// What the search for a basic prefix with a given row finds: the position
/// of the prefix in the list of basic prefixes.
pub enum EquivalentBasicPrefixSearchResult {
    NotFound,
    Found(usize),
}

impl<'a, M: Mat> View for MainTable<'a, M> {
    type V = Table;

    open spec fn view(&self) -> Table {
        Table {
            prefixes: words_view(self.prefixes@),
            suffixes: words_view(self.suffixes@),
            rows: rows_view(self.prefix_to_membership_suffixes@),
            basic: positions_view(self.basic_prefixes@),
        }
    }
}

impl<'a, M: Mat> MainTable<'a, M> {
    /// The table has the frame of a table, and the index by suffix mirrors
    /// the rows.
    pub open spec fn indexed(&self) -> bool {
        &&& self@.framed()
        &&& self.suffix_to_membership_prefixes.len() == self.suffixes.len()
        &&& forall|j: int|
            0 <= j < self.suffixes.len() ==> (#[trigger] self.suffix_to_membership_prefixes[j]).len()
                == self.prefixes.len()
        &&& forall|i: int, j: int|
            0 <= i < self.prefixes.len() && 0 <= j < self.suffixes.len() ==> self.suffix_to_membership_prefixes[j][i]
                == #[trigger] self@.rows[i][j]
    }

    /// Every verdict of the table is the answer of the teacher: the row of
    /// a prefix holds a suffix exactly if the teacher accepts the prefix
    /// followed by the suffix.
    pub open spec fn answers(&self) -> bool {
        forall|i: int, j: int|
            0 <= i < self.prefixes.len() && 0 <= j < self.suffixes.len() ==> #[trigger] self@.rows[i][j]
                == self.mat.accepts(self@.prefixes[i] + self@.suffixes[j])
    }

    /// The table is well formed: it has the shape of a table, with the
    /// basic prefixes as the representatives of their rows, and holds the
    /// answers of the teacher.
    pub open spec fn wf(&self) -> bool {
        self.indexed() && self@.canonical() && self.answers()
    }

    /// Which prefixes cannot witness the row `signature` of `prefix`: those
    /// whose row holds a suffix that `signature` lacks, and `prefix` itself
    /// where `exclusive` is set.
    fn forbidden_prefixes(&self, prefix: &str, signature: &Vec<bool>, exclusive: bool) -> (forbidden: Vec<bool>)
        requires
            self.indexed(),
            signature.len() == self.suffixes.len(),
        ensures
            forbidden.len() == self.prefixes.len(),
            forall|q: int|
                0 <= q < self.prefixes.len() ==> (#[trigger] forbidden[q] <==> !within(self@.rows[q], signature@) || (
                exclusive && self@.prefixes[q] == prefix@)),
    {
        let count: usize = self.prefixes.len();
        let mut forbidden = unset_flags(count);
        if exclusive {
            match position_of(&self.prefixes, prefix) {
                Some(i) => {
                    forbidden[i] = true;
                    assert forall|q: int| 0 <= q < count implies (#[trigger] forbidden[q] <==> self@.prefixes[q]
                        == prefix@) by {
                        if q != i && self@.prefixes[q] == prefix@ {
                            assert(self@.prefixes[i as int] == prefix@);
                        }
                    }
                },
                None => {
                    assert forall|q: int| 0 <= q < count implies self@.prefixes[q] != prefix@ by {
                        if self@.prefixes[q] == prefix@ {
                            assert(known(words_view(self.prefixes@), prefix@));
                        }
                    }
                },
            }
        }
        let mut j: usize = 0;
        while j < self.suffixes.len()
            invariant
                self.indexed(),
                signature.len() == self.suffixes.len(),
                count == self.prefixes.len(),
                forbidden.len() == count,
                j <= self.suffixes.len(),
                forall|q: int|
                    0 <= q < count ==> (#[trigger] forbidden[q] <==> (exclusive && self@.prefixes[q] == prefix@) || exists|
                        b: int,
                    | 0 <= b < j && !signature[b] && self@.rows[q][b]),
            decreases self.suffixes.len() - j,
        {
            if !signature[j] {
                let ghost before = forbidden@;
                let mut q: usize = 0;
                while q < count
                    invariant
                        self.indexed(),
                        signature.len() == self.suffixes.len(),
                        count == self.prefixes.len(),
                        forbidden.len() == count,
                        before.len() == count,
                        j < self.suffixes.len(),
                        !signature[j as int],
                        q <= count,
                        forall|a: int| 0 <= a < q ==> (#[trigger] forbidden[a] <==> before[a] || self@.rows[a][j as int]),
                        forall|a: int| q <= a < count ==> #[trigger] forbidden[a] == before[a],
                    decreases count - q,
                {
                    assert(self.suffix_to_membership_prefixes[j as int][q as int] == self@.rows[q as int][j as int]);
                    if self.suffix_to_membership_prefixes[j][q] {
                        forbidden[q] = true;
                    }
                    q += 1;
                }
                assert forall|a: int| 0 <= a < count implies (#[trigger] forbidden[a] <==> (exclusive
                    && self@.prefixes[a] == prefix@) || exists|b: int|
                    0 <= b < j + 1 && !signature[b] && self@.rows[a][b]) by {
                    if before[a] && !(exclusive && self@.prefixes[a] == prefix@) {
                        let b = choose|b: int| 0 <= b < j && !signature[b] && self@.rows[a][b];
                        assert(0 <= b < j + 1 && !signature[b] && self@.rows[a][b]);
                    }
                    if exists|b: int| 0 <= b < j + 1 && !signature[b] && self@.rows[a][b] {
                        let b = choose|b: int| 0 <= b < j + 1 && !signature[b] && self@.rows[a][b];
                        if b < j {
                            assert(before[a]);
                        }
                    }
                }
            } else {
                assert forall|a: int| 0 <= a < count implies (#[trigger] forbidden[a] <==> (exclusive
                    && self@.prefixes[a] == prefix@) || exists|b: int|
                    0 <= b < j + 1 && !signature[b] && self@.rows[a][b]) by {
                    if forbidden[a] && !(exclusive && self@.prefixes[a] == prefix@) {
                        let b = choose|b: int| 0 <= b < j && !signature[b] && self@.rows[a][b];
                        assert(0 <= b < j + 1 && !signature[b] && self@.rows[a][b]);
                    }
                    if exists|b: int| 0 <= b < j + 1 && !signature[b] && self@.rows[a][b] {
                        let b = choose|b: int| 0 <= b < j + 1 && !signature[b] && self@.rows[a][b];
                        assert(b < j);
                    }
                }
            }
            j += 1;
        }
        proof {
            assert forall|q: int| 0 <= q < count implies (#[trigger] forbidden[q] <==> !within(
                self@.rows[q],
                signature@,
            ) || (exclusive && self@.prefixes[q] == prefix@)) by {
                assert(self@.rows[q].len() == self.suffixes.len());
                if !within(self@.rows[q], signature@) {
                    let b = choose|b: int|
                        0 <= b < self@.rows[q].len() && self@.rows[q][b] && !(0 <= b < signature@.len() && signature@[b]);
                    assert(0 <= b < self.suffixes.len() && !signature[b] && self@.rows[q][b]);
                }
            }
        }
        forbidden
    }

    /// Whether a basic prefix that is not forbidden holds the suffix at
    /// position `j`.
    fn has_witness(&self, j: usize, forbidden: &Vec<bool>) -> (found: bool)
        requires
            self.indexed(),
            j < self.suffixes.len(),
            forbidden.len() == self.prefixes.len(),
        ensures
            found == exists|k: int|
                0 <= k < self.basic_prefixes.len() && self@.rows[#[trigger] self@.basic[k]][j as int]
                    && !forbidden[self@.basic[k]],
    {
        let mut k: usize = 0;
        while k < self.basic_prefixes.len()
            invariant
                self.indexed(),
                j < self.suffixes.len(),
                forbidden.len() == self.prefixes.len(),
                k <= self.basic_prefixes.len(),
                forall|a: int| 0 <= a < k ==> !(self@.rows[#[trigger] self@.basic[a]][j as int] && !forbidden[self@.basic[a]]),
            decreases self.basic_prefixes.len() - k,
        {
            let b: usize = self.basic_prefixes[k];
            assert(self@.basic[k as int] == b);
            assert(self.suffix_to_membership_prefixes[j as int][b as int] == self@.rows[b as int][j as int]);
            if self.suffix_to_membership_prefixes[j][b] && !forbidden[b] {
                return true;
            }
            k += 1;
        }
        false
    }

    /// Whether the row `membership_suffixes` of `prefix` is covered by the
    /// rows of the basic prefixes.
    pub fn is_covered(&self, prefix: &str, membership_suffixes: &Vec<bool>, mode: CoverageMode) -> (covered: bool)
        requires
            self.indexed(),
            membership_suffixes.len() == self.suffixes.len(),
        ensures
            covered == self@.covered(prefix@, membership_suffixes@, mode),
    {
        let exclusive: bool = match mode {
            CoverageMode::Exclusive => true,
            CoverageMode::Inclusive => false,
        };
        if exclusive && !holds_any(membership_suffixes) {
            return false;
        }
        let forbidden = self.forbidden_prefixes(prefix, membership_suffixes, exclusive);
        let ghost table = self@;
        let ghost signature = membership_suffixes@;
        proof {
            assert forall|k: int, j: int|
                0 <= k < table.basic.len() && 0 <= j < signature.len() implies (#[trigger] table.witnesses(
                k,
                j,
                prefix@,
                signature,
                mode,
            ) <==> table.rows[table.basic[k]][j] && !forbidden[table.basic[k]]) by {}
        }
        let mut j: usize = 0;
        while j < membership_suffixes.len()
            invariant
                self.indexed(),
                table == self@,
                signature == membership_suffixes@,
                membership_suffixes.len() == self.suffixes.len(),
                forbidden.len() == self.prefixes.len(),
                j <= membership_suffixes.len(),
                forall|k: int, b: int|
                    0 <= k < table.basic.len() && 0 <= b < signature.len() ==> (#[trigger] table.witnesses(
                        k,
                        b,
                        prefix@,
                        signature,
                        mode,
                    ) <==> table.rows[table.basic[k]][b] && !forbidden[table.basic[k]]),
                forall|b: int|
                    0 <= b < j && signature[b] ==> exists|k: int|
                        0 <= k < table.basic.len() && #[trigger] table.witnesses(k, b, prefix@, signature, mode),
            decreases membership_suffixes.len() - j,
        {
            if membership_suffixes[j] {
                let found: bool = self.has_witness(j, &forbidden);
                if !found {
                    proof {
                        if table.covered(prefix@, signature, mode) {
                            let k = choose|k: int|
                                0 <= k < table.basic.len() && #[trigger] table.witnesses(
                                    k,
                                    j as int,
                                    prefix@,
                                    signature,
                                    mode,
                                );
                            assert(table.rows[table.basic[k]][j as int] && !forbidden[table.basic[k]]);
                        }
                    }
                    return false;
                }
                proof {
                    let k = choose|k: int|
                        0 <= k < self.basic_prefixes.len() && self@.rows[#[trigger] self@.basic[k]][j as int]
                            && !forbidden[self@.basic[k]];
                    assert(table.witnesses(k, j as int, prefix@, signature, mode));
                }
            }
            j += 1;
        }
        true
    }

    /// The first basic prefix whose row equals the desired one.
    pub fn find_equivalent_basic_prefix(&self, desired_membership_suffixes: &Vec<bool>) -> (found:
        EquivalentBasicPrefixSearchResult)
        requires
            self.indexed(),
        ensures
            match found {
                EquivalentBasicPrefixSearchResult::Found(k) => self@.equivalent_basic(desired_membership_suffixes@, 0)
                    == Some(k as int) && k < self.basic_prefixes.len(),
                EquivalentBasicPrefixSearchResult::NotFound => self@.equivalent_basic(desired_membership_suffixes@, 0)
                    is None,
            },
    {
        let mut k: usize = 0;
        while k < self.basic_prefixes.len()
            invariant
                self.indexed(),
                k <= self.basic_prefixes.len(),
                self@.equivalent_basic(desired_membership_suffixes@, 0) == self@.equivalent_basic(
                    desired_membership_suffixes@,
                    k as int,
                ),
            decreases self.basic_prefixes.len() - k,
        {
            let b: usize = self.basic_prefixes[k];
            assert(self@.basic[k as int] == b);
            assert(self@.rows[b as int] == self.prefix_to_membership_suffixes[b as int]@);
            if same_flags(&self.prefix_to_membership_suffixes[b], desired_membership_suffixes) {
                return EquivalentBasicPrefixSearchResult::Found(k);
            }
            k += 1;
        }
        EquivalentBasicPrefixSearchResult::NotFound
    }

    /// Whether the first prefix is shorter than the second. Prefixes of one
    /// length are not ordered: between them the one that was basic first
    /// stays basic.
    pub fn is_shorter(&self, first_prefix: &str, second_prefix: &str) -> (shorter: bool)
        ensures
            shorter == (first_prefix@.len() < second_prefix@.len()),
    {
        first_prefix.unicode_len() < second_prefix.unicode_len()
    }

    /// The basic prefixes whose row lies within the source row, by their
    /// positions in the list of basic prefixes, in rising order.
    pub fn get_absorbed_basic_prefixes(&self, source_membership_suffixes: &Vec<bool>) -> (absorbed_prefixes: Vec<usize>)
        requires
            self.indexed(),
            source_membership_suffixes.len() == self.suffixes.len(),
        ensures
            positions_view(absorbed_prefixes@) == self@.absorbed(
                source_membership_suffixes@,
                self.basic_prefixes.len() as int,
            ),
            forall|x: int| 0 <= x < absorbed_prefixes.len() ==> (#[trigger] absorbed_prefixes[x]) < self.basic_prefixes.len(),
    {
        let mut absorbed_prefixes: Vec<usize> = Vec::new();
        let mut k: usize = 0;
        assert(positions_view(absorbed_prefixes@) =~= self@.absorbed(source_membership_suffixes@, 0));
        while k < self.basic_prefixes.len()
            invariant
                self.indexed(),
                source_membership_suffixes.len() == self.suffixes.len(),
                k <= self.basic_prefixes.len(),
                positions_view(absorbed_prefixes@) == self@.absorbed(source_membership_suffixes@, k as int),
                forall|x: int| 0 <= x < absorbed_prefixes.len() ==> (#[trigger] absorbed_prefixes[x]) < k,
            decreases self.basic_prefixes.len() - k,
        {
            let b: usize = self.basic_prefixes[k];
            assert(self@.basic[k as int] == b);
            assert(self@.rows[b as int] == self.prefix_to_membership_suffixes[b as int]@);
            assert(self@.rows[b as int].len() == self.suffixes.len());
            let ghost before = absorbed_prefixes@;
            if is_within(&self.prefix_to_membership_suffixes[b], source_membership_suffixes) {
                absorbed_prefixes.push(k);
                assert(positions_view(absorbed_prefixes@) =~= positions_view(before).push(k as int));
            }
            k += 1;
        }
        absorbed_prefixes
    }

    /// Everything but the basic prefixes is as in `other`.
    pub open spec fn same_contents(&self, other: &Self) -> bool {
        &&& self.mat == other.mat
        &&& self.prefixes == other.prefixes
        &&& self.suffixes == other.suffixes
        &&& self.prefix_to_membership_suffixes == other.prefix_to_membership_suffixes
        &&& self.suffix_to_membership_prefixes == other.suffix_to_membership_prefixes
    }

    /// Drops every basic prefix that the basic prefixes cover without its
    /// own help. All are judged against the list as it is at the start.
    pub fn cleanup_basic_prefixes(&mut self)
        requires
            old(self).indexed(),
        ensures
            final(self)@ == old(self)@.cleaned(),
            final(self).indexed(),
            final(self).same_contents(old(self)),
            old(self)@.canonical() ==> final(self)@.canonical(),
    {
        let ghost table = self@;
        let mut kept: Vec<usize> = Vec::new();
        let mut k: usize = 0;
        assert(positions_view(kept@) =~= table.kept(0));
        while k < self.basic_prefixes.len()
            invariant
                self.indexed(),
                *self == *old(self),
                table == self@,
                k <= self.basic_prefixes.len(),
                positions_view(kept@) == table.kept(k as int),
            decreases self.basic_prefixes.len() - k,
        {
            let b: usize = self.basic_prefixes[k];
            assert(table.basic[k as int] == b);
            assert(table.rows[b as int] == self.prefix_to_membership_suffixes[b as int]@);
            assert(table.prefixes[b as int] == self.prefixes[b as int]@);
            assert(table.rows[b as int].len() == self.suffixes.len());
            let ghost before = kept@;
            if !self.is_covered(
                self.prefixes[b].as_str(),
                &self.prefix_to_membership_suffixes[b],
                CoverageMode::Exclusive,
            ) {
                kept.push(b);
                assert(positions_view(kept@) =~= positions_view(before).push(b as int));
            }
            k += 1;
        }
        self.basic_prefixes = kept;
        proof {
            lemma_cleaned_shaped(table);
            assert(self@.prefixes == table.prefixes);
            assert(self@.rows == table.rows);
            assert(self@ == table.cleaned());
        }
    }

    /// The representative of a row: the shortest prefix with that row, and
    /// of several shortest ones the one that was inserted first.
    pub fn find_representative(&self, row: &Vec<bool>) -> (found: Option<usize>)
        requires
            self.indexed(),
        ensures
            match found {
                Some(r) => self@.representative(row@, self.prefixes.len() as int) == Some(r as int) && r
                    < self.prefixes.len(),
                None => self@.representative(row@, self.prefixes.len() as int) is None,
            },
    {
        let ghost table = self@;
        let mut found: Option<usize> = None;
        let mut i: usize = 0;
        while i < self.prefixes.len()
            invariant
                self.indexed(),
                table == self@,
                i <= self.prefixes.len(),
                match found {
                    Some(r) => table.representative(row@, i as int) == Some(r as int) && r < i,
                    None => table.representative(row@, i as int) is None,
                },
            decreases self.prefixes.len() - i,
        {
            assert(table.rows[i as int] == self.prefix_to_membership_suffixes[i as int]@);
            assert(table.prefixes[i as int] == self.prefixes[i as int]@);
            if same_flags(&self.prefix_to_membership_suffixes[i], row) {
                let shorter: bool = match found {
                    Some(r) => {
                        assert(table.prefixes[r as int] == self.prefixes[r as int]@);
                        self.is_shorter(self.prefixes[i].as_str(), self.prefixes[r].as_str())
                    },
                    None => true,
                };
                if shorter {
                    found = Some(i);
                }
            }
            i += 1;
        }
        found
    }

    /// Looks at every prefix in the order of insertion. A prefix whose row
    /// a basic prefix has changes nothing. For a prefix whose row no basic
    /// prefix has, and which the basic prefixes of the moment do not cover,
    /// the representative of its row becomes basic. Then the basic
    /// prefixes are cleaned up.
    pub fn rebuild_basic_prefixes(&mut self)
        requires
            old(self).indexed(),
            old(self)@.canonical(),
        ensures
            final(self)@ == old(self)@.rebuilt(),
            final(self).indexed(),
            final(self)@.canonical(),
            final(self).same_contents(old(self)),
    {
        let ghost start = self@;
        let mut i: usize = 0;
        assert(self@ == (Table { basic: start.grown(0), ..start }));
        while i < self.prefixes.len()
            invariant
                self.indexed(),
                self@.canonical(),
                self.same_contents(old(self)),
                start == old(self)@,
                i <= self.prefixes.len(),
                self@ == (Table { basic: start.grown(i as int), ..start }),
            decreases self.prefixes.len() - i,
        {
            let ghost table = self@;
            assert(table.rows[i as int] == self.prefix_to_membership_suffixes[i as int]@);
            assert(table.prefixes[i as int] == self.prefixes[i as int]@);
            assert(table.rows[i as int].len() == self.suffixes.len());
            assert(table.rows[i as int] == start.rows[i as int]);
            assert(table.prefixes[i as int] == start.prefixes[i as int]);
            let represented: bool = match self.find_equivalent_basic_prefix(&self.prefix_to_membership_suffixes[i]) {
                EquivalentBasicPrefixSearchResult::Found(_) => true,
                EquivalentBasicPrefixSearchResult::NotFound => false,
            };
            if !represented && !self.is_covered(
                self.prefixes[i].as_str(),
                &self.prefix_to_membership_suffixes[i],
                CoverageMode::Exclusive,
            ) {
                match self.find_representative(&self.prefix_to_membership_suffixes[i]) {
                    Some(r) => {
                        let ghost before = self.basic_prefixes@;
                        self.basic_prefixes.push(r);
                        proof {
                            assert(positions_view(self.basic_prefixes@) =~= positions_view(before).push(r as int));
                            lemma_promoted_shaped(table, table.rows[i as int]);
                            let now = self@;
                            assert(now.prefixes == table.prefixes);
                            assert(now.suffixes == table.suffixes);
                            assert(now.rows == table.rows);
                            assert(now == (Table { basic: table.basic.push(r as int), ..table }));
                        }
                    },
                    None => {
                        proof {
                            lemma_representative(table, table.rows[i as int], table.prefixes.len() as int);
                        }
                    },
                }
            }
            assert(self@.prefixes == start.prefixes);
            assert(self@.rows == start.rows);
            i += 1;
        }
        self.cleanup_basic_prefixes();
    }

    /// Adds a prefix that the table does not know, with its row: the
    /// teacher is asked about the prefix followed by every suffix.
    fn append_row(&mut self, prefix: &str)
        requires
            old(self).indexed(),
            old(self).answers(),
            !known(old(self)@.prefixes, prefix@),
        ensures
            final(self).indexed(),
            final(self).answers(),
            final(self).mat == old(self).mat,
            final(self)@ == (Table {
                prefixes: old(self)@.prefixes.push(prefix@),
                rows: old(self)@.rows.push(signature_of(old(self).mat, prefix@, old(self)@.suffixes)),
                ..old(self)@
            }),
    {
        let ghost start = self@;
        let ghost goal = signature_of(self.mat, prefix@, start.suffixes);
        let count: usize = self.suffixes.len();
        let mut row: Vec<bool> = Vec::new();
        let mut j: usize = 0;
        while j < count
            invariant
                old(self).indexed(),
                old(self).answers(),
                count == self.suffixes.len(),
                j <= count,
                start == old(self)@,
                goal == signature_of(self.mat, prefix@, start.suffixes),
                self.mat == old(self).mat,
                self.prefixes == old(self).prefixes,
                self.suffixes == old(self).suffixes,
                self.basic_prefixes == old(self).basic_prefixes,
                self.prefix_to_membership_suffixes == old(self).prefix_to_membership_suffixes,
                self.suffix_to_membership_prefixes.len() == count,
                row.len() == j,
                forall|b: int| 0 <= b < j ==> row[b] == goal[b],
                forall|b: int|
                    0 <= b < j ==> (#[trigger] self.suffix_to_membership_prefixes[b])@ == old(
                        self,
                    ).suffix_to_membership_prefixes[b]@.push(goal[b]),
                forall|b: int|
                    j <= b < count ==> #[trigger] self.suffix_to_membership_prefixes[b] == old(
                        self,
                    ).suffix_to_membership_prefixes[b],
            decreases count - j,
        {
            let word = concat(prefix, self.suffixes[j].as_str());
            assert(start.suffixes[j as int] == self.suffixes[j as int]@);
            let member: bool = self.mat.check_membership(word.as_str());
            row.push(member);
            self.suffix_to_membership_prefixes[j].push(member);
            j += 1;
        }
        assert(row@ =~= goal);
        self.prefixes.push(String::from_str(prefix));
        self.prefix_to_membership_suffixes.push(row);
        proof {
            let now = self@;
            let fresh = start.prefixes.len() as int;
            assert(now.prefixes =~= start.prefixes.push(prefix@));
            assert(now.rows =~= start.rows.push(goal));
            assert(now.suffixes =~= start.suffixes);
            assert(now.basic =~= start.basic);
            assert(distinct(now.prefixes)) by {
                assert forall|a: int, b: int|
                    0 <= a < now.prefixes.len() && 0 <= b < now.prefixes.len() && a != b implies now.prefixes[a]
                    != now.prefixes[b] by {
                    if a == fresh {
                        assert(start.prefixes[b] == now.prefixes[b]);
                    } else if b == fresh {
                        assert(start.prefixes[a] == now.prefixes[a]);
                    } else {
                        assert(start.prefixes[a] == now.prefixes[a]);
                        assert(start.prefixes[b] == now.prefixes[b]);
                    }
                }
            }
            assert(now.framed());
            assert forall|a: int, b: int|
                0 <= a < self.prefixes.len() && 0 <= b < self.suffixes.len() implies self.suffix_to_membership_prefixes[b][a]
                == #[trigger] now.rows[a][b] by {
                if a < fresh {
                    assert(old(self).suffix_to_membership_prefixes[b][a] == start.rows[a][b]);
                }
            }
            assert forall|a: int, b: int|
                0 <= a < self.prefixes.len() && 0 <= b < self.suffixes.len() implies #[trigger] now.rows[a][b]
                == self.mat.accepts(now.prefixes[a] + now.suffixes[b]) by {
                if a < fresh {
                    assert(start.rows[a][b] == old(self).mat.accepts(start.prefixes[a] + start.suffixes[b]));
                }
            }
        }
    }

    /// Inserts a prefix. A prefix that the table knows changes nothing. A
    /// new one gets its row from the teacher. It takes the place of a basic
    /// prefix with the same row if it is shorter. Where no basic prefix has
    /// its row and the basic prefixes do not cover it, the representative
    /// of its row becomes basic: the prefix itself, unless an earlier prefix
    /// with its row is as short. The basic prefixes stay the representatives
    /// of their rows.
    pub fn insert_prefix(&mut self, prefix: &str)
        requires
            old(self).wf(),
        ensures
            final(self).wf(),
            final(self).mat == old(self).mat,
            final(self)@.suffixes == old(self)@.suffixes,
            known(old(self)@.prefixes, prefix@) ==> *final(self) == *old(self),
            !known(old(self)@.prefixes, prefix@) ==> final(self)@ == old(self)@.with_prefix(
                prefix@,
                signature_of(old(self).mat, prefix@, old(self)@.suffixes),
            ),
            old(self)@.seeded() ==> final(self)@.seeded(),
    {
        match position_of(&self.prefixes, prefix) {
            Some(i) => {
                assert(words_view(self.prefixes@)[i as int] == prefix@);
                return ;
            },
            None => {},
        }
        let ghost start = self@;
        let ghost signature = signature_of(self.mat, prefix@, start.suffixes);
        let fresh: usize = self.prefixes.len();
        self.append_row(prefix);
        let ghost added = self@;
        assert(added.rows[fresh as int] == self.prefix_to_membership_suffixes[fresh as int]@);
        assert(added.rows[fresh as int] == signature);
        proof {
            lemma_equivalent_basic(added, signature, 0);
            assert forall|k: int| 0 <= k < added.basic.len() implies #[trigger] added.basic[k] < added.prefixes.len() - 1 by {
                assert(start.basic[k] == added.basic[k]);
            }
            assert forall|k1: int, k2: int|
                0 <= k1 < added.basic.len() && 0 <= k2 < added.basic.len() && k1 != k2 implies added.rows[#[trigger] added.basic[k1]]
                != added.rows[#[trigger] added.basic[k2]] by {
                assert(start.basic[k1] == added.basic[k1]);
                assert(start.basic[k2] == added.basic[k2]);
                assert(start.rows[start.basic[k1]] != start.rows[start.basic[k2]]);
            }
            assert forall|i: int, k: int|
                0 <= i < added.prefixes.len() - 1 && 0 <= k < added.basic.len() && #[trigger] added.rows[i]
                    == added.rows[#[trigger] added.basic[k]] implies added.prefixes[i].len() >= added.prefixes[added.basic[k]].len() by {
                assert(start.basic[k] == added.basic[k]);
                assert(start.rows[i] == added.rows[i]);
                assert(start.rows[start.basic[k]] == added.rows[added.basic[k]]);
                assert(start.prefixes[i] == added.prefixes[i]);
                assert(start.prefixes[start.basic[k]] == added.prefixes[added.basic[k]]);
            }
            assert(canonical_before_last(added));
        }
        match self.find_equivalent_basic_prefix(&self.prefix_to_membership_suffixes[fresh]) {
            EquivalentBasicPrefixSearchResult::Found(k) => {
                let b: usize = self.basic_prefixes[k];
                assert(added.basic[k as int] == b);
                assert(added.prefixes[b as int] == self.prefixes[b as int]@);
                assert(added.rows[b as int] == signature);
                assert(start.basic[k as int] == b);
                assert(start.prefixes[b as int] == added.prefixes[b as int]);
                assert(added.prefixes[fresh as int] == prefix@);
                if self.is_shorter(prefix, self.prefixes[b].as_str()) {
                    self.basic_prefixes.remove(k);
                    self.basic_prefixes.push(fresh);
                    proof {
                        let now = self@;
                        assert(positions_view(self.basic_prefixes@) =~= start.basic.remove(k as int).push(fresh as int));
                        assert(now.prefixes == added.prefixes);
                        assert(now.rows == added.rows);
                        assert(now.suffixes == added.suffixes);
                        lemma_replaced_shaped(added, k as int);
                        assert(now == (Table { basic: added.basic.remove(k as int).push(fresh as int), ..added }));
                    }
                } else {
                    proof {
                        lemma_last_fits(added);
                    }
                }
            },
            EquivalentBasicPrefixSearchResult::NotFound => {
                assert(added.rows[fresh as int].len() == self.suffixes.len());
                proof {
                    lemma_last_fits(added);
                }
                if !self.is_covered(prefix, &self.prefix_to_membership_suffixes[fresh], CoverageMode::Exclusive) {
                    proof {
                        lemma_representative(added, signature, added.prefixes.len() as int);
                    }
                    match self.find_representative(&self.prefix_to_membership_suffixes[fresh]) {
                        Some(r) => {
                            let ghost before = self.basic_prefixes@;
                            self.basic_prefixes.push(r);
                            proof {
                                let now = self@;
                                assert(positions_view(self.basic_prefixes@) =~= start.basic.push(r as int));
                                assert(now.prefixes == added.prefixes);
                                assert(now.rows == added.rows);
                                assert(now.suffixes == added.suffixes);
                                lemma_promoted_shaped(added, signature);
                                assert(now == (Table { basic: added.basic.push(r as int), ..added }));
                            }
                            self.cleanup_basic_prefixes();
                        },
                        None => {},
                    }
                }
            },
        }
        proof {
            let now = self@;
            assert(now.prefixes == added.prefixes);
            assert(now.rows == added.rows);
            assert(now.suffixes == added.suffixes);
        }
    }

    /// Adds a suffix that the table does not know, with its column: the
    /// teacher is asked about every prefix followed by the suffix.
    fn append_column(&mut self, suffix: &str)
        requires
            old(self).indexed(),
            old(self).answers(),
            !known(old(self)@.suffixes, suffix@),
        ensures
            final(self).indexed(),
            final(self).answers(),
            old(self)@.canonical() ==> final(self)@.canonical(),
            final(self).mat == old(self).mat,
            final(self)@ == (Table {
                suffixes: old(self)@.suffixes.push(suffix@),
                rows: Seq::new(
                    old(self)@.rows.len(),
                    |i: int| old(self)@.rows[i].push(column_of(old(self).mat, old(self)@.prefixes, suffix@)[i]),
                ),
                ..old(self)@
            }),
    {
        let ghost start = self@;
        let ghost goal = column_of(self.mat, start.prefixes, suffix@);
        let count: usize = self.prefixes.len();
        let mut column: Vec<bool> = Vec::new();
        let mut i: usize = 0;
        while i < count
            invariant
                old(self).indexed(),
                old(self).answers(),
                count == self.prefixes.len(),
                i <= count,
                start == old(self)@,
                goal == column_of(self.mat, start.prefixes, suffix@),
                self.mat == old(self).mat,
                self.prefixes == old(self).prefixes,
                self.suffixes == old(self).suffixes,
                self.basic_prefixes == old(self).basic_prefixes,
                self.suffix_to_membership_prefixes == old(self).suffix_to_membership_prefixes,
                self.prefix_to_membership_suffixes.len() == count,
                column.len() == i,
                forall|a: int| 0 <= a < i ==> column[a] == goal[a],
                forall|a: int|
                    0 <= a < i ==> (#[trigger] self.prefix_to_membership_suffixes[a])@ == old(
                        self,
                    ).prefix_to_membership_suffixes[a]@.push(goal[a]),
                forall|a: int|
                    i <= a < count ==> #[trigger] self.prefix_to_membership_suffixes[a] == old(
                        self,
                    ).prefix_to_membership_suffixes[a],
            decreases count - i,
        {
            let word = concat(self.prefixes[i].as_str(), suffix);
            assert(start.prefixes[i as int] == self.prefixes[i as int]@);
            let member: bool = self.mat.check_membership(word.as_str());
            column.push(member);
            self.prefix_to_membership_suffixes[i].push(member);
            i += 1;
        }
        assert(column@ =~= goal);
        self.suffixes.push(String::from_str(suffix));
        self.suffix_to_membership_prefixes.push(column);
        proof {
            let now = self@;
            let fresh = start.suffixes.len() as int;
            let rows = Seq::new(start.rows.len(), |i: int| start.rows[i].push(goal[i]));
            assert(now.suffixes =~= start.suffixes.push(suffix@));
            assert(now.prefixes =~= start.prefixes);
            assert(now.basic =~= start.basic);
            assert(now.rows.len() == rows.len());
            assert forall|a: int| 0 <= a < rows.len() implies #[trigger] now.rows[a] == rows[a] by {
                assert(start.rows[a] == old(self).prefix_to_membership_suffixes[a]@);
            }
            assert(now.rows =~= rows);
            assert(distinct(now.suffixes)) by {
                assert forall|a: int, b: int|
                    0 <= a < now.suffixes.len() && 0 <= b < now.suffixes.len() && a != b implies now.suffixes[a]
                    != now.suffixes[b] by {
                    if a == fresh {
                        assert(start.suffixes[b] == now.suffixes[b]);
                    } else if b == fresh {
                        assert(start.suffixes[a] == now.suffixes[a]);
                    } else {
                        assert(start.suffixes[a] == now.suffixes[a]);
                        assert(start.suffixes[b] == now.suffixes[b]);
                    }
                }
            }
            assert forall|a: int| 0 <= a < now.rows.len() implies (#[trigger] now.rows[a]).len() == now.suffixes.len() by {
                assert(start.rows[a].len() == start.suffixes.len());
            }
            assert(now.framed());
            assert forall|a: int, b: int|
                0 <= a < self.prefixes.len() && 0 <= b < self.suffixes.len() implies self.suffix_to_membership_prefixes[b][a]
                == #[trigger] now.rows[a][b] by {
                assert(start.rows[a].len() == start.suffixes.len());
                if b < fresh {
                    assert(old(self).suffix_to_membership_prefixes[b][a] == start.rows[a][b]);
                }
            }
            assert forall|a: int, b: int|
                0 <= a < self.prefixes.len() && 0 <= b < self.suffixes.len() implies #[trigger] now.rows[a][b]
                == self.mat.accepts(now.prefixes[a] + now.suffixes[b]) by {
                assert(start.rows[a].len() == start.suffixes.len());
                if b < fresh {
                    assert(start.rows[a][b] == old(self).mat.accepts(start.prefixes[a] + start.suffixes[b]));
                }
            }
            if start.canonical() {
                assert forall|a: int, b: int|
                    0 <= a < start.rows.len() && 0 <= b < start.rows.len() && now.rows[a] == now.rows[b] implies start.rows[a]
                    == start.rows[b] by {
                    assert(now.rows[a].drop_last() =~= start.rows[a]);
                    assert(now.rows[b].drop_last() =~= start.rows[b]);
                }
                assert forall|k1: int, k2: int|
                    0 <= k1 < now.basic.len() && 0 <= k2 < now.basic.len() && k1 != k2 implies now.rows[#[trigger] now.basic[k1]]
                    != now.rows[#[trigger] now.basic[k2]] by {
                    assert(start.basic[k1] == now.basic[k1]);
                    assert(start.basic[k2] == now.basic[k2]);
                    assert(start.rows[start.basic[k1]] != start.rows[start.basic[k2]]);
                }
                assert forall|i: int, k: int|
                    0 <= i < now.prefixes.len() && 0 <= k < now.basic.len() && #[trigger] now.rows[i]
                        == now.rows[#[trigger] now.basic[k]] implies now.prefixes[i].len() >= now.prefixes[now.basic[k]].len() by {
                    assert(start.basic[k] == now.basic[k]);
                    assert(start.rows[i] == start.rows[start.basic[k]]);
                }
            }
        }
    }

    /// Inserts a suffix. A suffix that the table knows changes nothing. For
    /// a new one the teacher is asked about every prefix followed by it, and
    /// the basic prefixes are rebuilt; they stay the representatives of
    /// their rows, one for each row that has one.
    pub fn insert_suffix(&mut self, suffix: &str)
        requires
            old(self).wf(),
        ensures
            final(self).wf(),
            final(self).mat == old(self).mat,
            final(self)@.prefixes == old(self)@.prefixes,
            known(old(self)@.suffixes, suffix@) ==> *final(self) == *old(self),
            !known(old(self)@.suffixes, suffix@) ==> final(self)@ == old(self)@.with_suffix(
                suffix@,
                column_of(old(self).mat, old(self)@.prefixes, suffix@),
            ),
            old(self)@.seeded() ==> final(self)@.seeded(),
    {
        match position_of(&self.suffixes, suffix) {
            Some(j) => {
                assert(words_view(self.suffixes@)[j as int] == suffix@);
                return ;
            },
            None => {},
        }
        let ghost start = self@;
        self.append_column(suffix);
        let ghost added = self@;
        self.rebuild_basic_prefixes();
        proof {
            let now = self@;
            assert(now.prefixes == added.prefixes);
            assert(now.rows == added.rows);
            assert(now.suffixes == added.suffixes);
            assert(start.prefixes.len() >= 1 ==> now.prefixes[0] == start.prefixes[0]);
            assert(start.suffixes.len() >= 1 ==> now.suffixes[0] == start.suffixes[0]);
        }
    }

    /// The table of a learner that has asked nothing but the empty word:
    /// the empty prefix, which is basic, and the empty suffix.
    pub fn new(mat: &'a M) -> (table: Self)
        ensures
            table.wf(),
            table.mat == mat,
            table@.seeded(),
            table@ == (Table {
                prefixes: seq![Seq::<char>::empty()],
                suffixes: seq![Seq::<char>::empty()],
                rows: seq![seq![mat.accepts(Seq::<char>::empty())]],
                basic: seq![0int],
            }),
    {
        let mut table = Self {
            mat,
            prefixes: Vec::new(),
            basic_prefixes: Vec::new(),
            suffixes: Vec::new(),
            prefix_to_membership_suffixes: Vec::new(),
            suffix_to_membership_prefixes: Vec::new(),
        };
        proof {
            reveal_strlit("");
        }
        let ghost empty = Seq::<char>::empty();
        let ghost blank = table@;
        assert(""@ =~= empty);
        assert(!known(blank.prefixes, empty));
        table.insert_prefix("");
        let ghost first = table@;
        proof {
            let row = signature_of(mat, empty, blank.suffixes);
            let added = Table { prefixes: blank.prefixes.push(empty), rows: blank.rows.push(row), ..blank };
            assert(row =~= Seq::<bool>::empty());
            assert(added.equivalent_basic(row, 0) is None);
            assert(!inhabited_row(row));
            assert(!added.covered(empty, row, CoverageMode::Exclusive));
            assert(added.representative(row, 0) is None);
            assert(added.rows[0] == row);
            assert(added.representative(row, 1) == Some(0int));
            let grown = Table { basic: blank.basic.push(0), ..added };
            assert(grown.basic =~= seq![0int]);
            assert(grown.rows[grown.basic[0]] == row);
            assert(!grown.redundant(0));
            assert(grown.kept(0) =~= Seq::<int>::empty());
            assert(grown.kept(1) =~= seq![0int]);
            assert(first == grown.cleaned());
            assert(first.prefixes =~= seq![empty]);
            assert(first.rows =~= seq![Seq::<bool>::empty()]);
            assert(first.suffixes =~= Seq::<Seq<char>>::empty());
            assert(first.basic =~= seq![0int]);
            assert(!known(first.suffixes, empty));
        }
        table.insert_suffix("");
        proof {
            let last = table@;
            let verdict = mat.accepts(empty);
            let column = column_of(mat, first.prefixes, empty);
            assert(empty + empty =~= empty);
            assert(column =~= seq![verdict]);
            let wide = Table {
                suffixes: first.suffixes.push(empty),
                rows: Seq::new(first.rows.len(), |i: int| first.rows[i].push(column[i])),
                ..first
            };
            assert(wide.rows =~= seq![seq![verdict]]);
            assert(wide.suffixes =~= seq![empty]);
            assert(wide.prefixes =~= seq![empty]);
            assert(wide.grown(0) == wide.basic);
            let settled = Table { basic: wide.grown(0), ..wide };
            assert(settled == wide);
            assert(wide.rows[wide.basic[0]] == wide.rows[0]);
            assert(wide.equivalent_basic(wide.rows[0], 0) == Some(0int));
            assert(wide.grown(1) == wide.basic);
            assert(!wide.redundant(0)) by {
                if wide.redundant(0) {
                    let row = wide.rows[0];
                    assert(inhabited_row(row));
                    let j = choose|j: int| 0 <= j < row.len() && row[j];
                    let k = choose|k: int|
                        0 <= k < wide.basic.len() && #[trigger] wide.witnesses(k, j, empty, row, CoverageMode::Exclusive);
                    assert(wide.prefixes[wide.basic[k]] == empty);
                }
            }
            assert(wide.kept(0) =~= Seq::<int>::empty());
            assert(wide.kept(1) =~= seq![0int]);
            assert(last == wide.rebuilt());
            assert(last.basic =~= seq![0int]);
        }
        table
    }
}

/// Signature consistency: in a well-formed table, the signature of a known
/// prefix holds a known suffix exactly if the teacher accepts the prefix
/// followed by the suffix.
pub proof fn lemma_signature_consistency<'a, M: Mat>(table: &MainTable<'a, M>, i: int, j: int)
    requires
        table.wf(),
        0 <= i < table@.prefixes.len(),
        0 <= j < table@.suffixes.len(),
    ensures
        table@.signature(i).contains(table@.suffixes[j]) <==> table.mat.accepts(table@.prefixes[i] + table@.suffixes[j]),
{
    let t = table@;
    assert(t.rows[i][j] == table.mat.accepts(t.prefixes[i] + t.suffixes[j]));
    if t.signature(i).contains(t.suffixes[j]) {
        let b = choose|b: int| 0 <= b < t.suffixes.len() && t.suffixes[b] == t.suffixes[j] && t.rows[i][b];
        assert(b == j);
    }
}

} // verus!
