//! The mathematical model of an observation table, and what it means for a
//! row to be covered by the rows of the basic prefixes.
use vstd::prelude::*;

verus! {

/// How coverage treats the prefix whose row is examined.
#[derive(Clone, Copy, Debug, PartialEq, Eq)]
pub enum CoverageMode {
    /// Any basic prefix may serve as a witness.
    Inclusive,
    /// The prefix itself may not serve as a witness, and an empty row is
    /// never covered.
    Exclusive,
}

/// An observation table as a value of mathematics: the prefixes and suffixes
/// in the order of their insertion, one row of verdicts per prefix with one
/// verdict per suffix, and the positions of the basic prefixes.
pub struct Table {
    pub prefixes: Seq<Seq<char>>,
    pub suffixes: Seq<Seq<char>>,
    pub rows: Seq<Seq<bool>>,
    pub basic: Seq<int>,
}

/// Every suffix of the row `inner` is one of the row `outer`.
pub open spec fn within(inner: Seq<bool>, outer: Seq<bool>) -> bool {
    forall|j: int| 0 <= j < inner.len() && inner[j] ==> 0 <= j < outer.len() && outer[j]
}

/// The row holds at least one suffix.
pub open spec fn inhabited_row(row: Seq<bool>) -> bool {
    exists|j: int| 0 <= j < row.len() && row[j]
}

/// The words are pairwise distinct.
pub open spec fn distinct(words: Seq<Seq<char>>) -> bool {
    forall|i: int, j: int| 0 <= i < words.len() && 0 <= j < words.len() && i != j ==> words[i] != words[j]
}

/// `word` is one of `words`.
pub open spec fn known(words: Seq<Seq<char>>, word: Seq<char>) -> bool {
    exists|i: int| 0 <= i < words.len() && words[i] == word
}

impl Table {
    /// The table has the frame of a table: distinct prefixes and suffixes,
    /// one row per prefix with one verdict per suffix, and basic prefixes
    /// that are distinct positions of prefixes.
    pub open spec fn framed(self) -> bool {
        &&& distinct(self.prefixes)
        &&& distinct(self.suffixes)
        &&& self.rows.len() == self.prefixes.len()
        &&& forall|i: int| 0 <= i < self.rows.len() ==> (#[trigger] self.rows[i]).len() == self.suffixes.len()
        &&& forall|k: int| 0 <= k < self.basic.len() ==> 0 <= #[trigger] self.basic[k] < self.prefixes.len()
        &&& forall|k1: int, k2: int|
            0 <= k1 < self.basic.len() && 0 <= k2 < self.basic.len() && k1 != k2 ==> self.basic[k1] != self.basic[k2]
    }

    /// The basic prefixes are the representatives of their rows: no two of
    /// them have the same row, and no prefix with the row of a basic prefix
    /// is shorter than that basic prefix.
    pub open spec fn canonical(self) -> bool {
        &&& forall|k1: int, k2: int|
            0 <= k1 < self.basic.len() && 0 <= k2 < self.basic.len() && k1 != k2 ==> self.rows[#[trigger] self.basic[k1]]
                != self.rows[#[trigger] self.basic[k2]]
        &&& forall|i: int, k: int|
            0 <= i < self.prefixes.len() && 0 <= k < self.basic.len() && #[trigger] self.rows[i]
                == self.rows[#[trigger] self.basic[k]] ==> self.prefixes[i].len() >= self.prefixes[self.basic[k]].len()
    }

    /// The table has the shape of a table, and its basic prefixes are the
    /// representatives of their rows.
    pub open spec fn shaped(self) -> bool {
        self.framed() && self.canonical()
    }

    /// The empty word is the first prefix and the first suffix.
    pub open spec fn seeded(self) -> bool {
        &&& self.prefixes.len() >= 1
        &&& self.prefixes[0].len() == 0
        &&& self.suffixes.len() >= 1
        &&& self.suffixes[0].len() == 0
    }

    /// The signature of the prefix at position `i`: the suffixes that its
    /// row holds.
    pub open spec fn signature(self, i: int) -> Set<Seq<char>> {
        Set::new(|s: Seq<char>| exists|j: int| 0 <= j < self.suffixes.len() && self.suffixes[j] == s && self.rows[i][j])
    }

    /// The basic prefix number `k` witnesses the suffix at position `j` for
    /// the row `signature` of `prefix`: its own row holds the suffix and
    /// lies within `signature`, and in exclusive mode it is not `prefix`.
    pub open spec fn witnesses(self, k: int, j: int, prefix: Seq<char>, signature: Seq<bool>, mode: CoverageMode) -> bool {
        &&& self.rows[self.basic[k]][j]
        &&& within(self.rows[self.basic[k]], signature)
        &&& mode == CoverageMode::Exclusive ==> self.prefixes[self.basic[k]] != prefix
    }

    /// The row `signature` of `prefix` is covered: each of its suffixes has
    /// a witness among the basic prefixes; in exclusive mode the row must
    /// hold a suffix.
    pub open spec fn covered(self, prefix: Seq<char>, signature: Seq<bool>, mode: CoverageMode) -> bool {
        &&& mode == CoverageMode::Exclusive ==> inhabited_row(signature)
        &&& forall|j: int|
            0 <= j < signature.len() && signature[j] ==> exists|k: int|
                0 <= k < self.basic.len() && #[trigger] self.witnesses(k, j, prefix, signature, mode)
    }

    /// The basic prefix at position `k` of the list is covered by the
    /// others.
    pub open spec fn redundant(self, k: int) -> bool {
        self.covered(self.prefixes[self.basic[k]], self.rows[self.basic[k]], CoverageMode::Exclusive)
    }

    /// The first `upto` basic prefixes without those that the basic prefixes
    /// cover, all judged against the whole list.
    pub open spec fn kept(self, upto: int) -> Seq<int>
        decreases upto,
    {
        if upto <= 0 {
            Seq::empty()
        } else if self.redundant(upto - 1) {
            self.kept(upto - 1)
        } else {
            self.kept(upto - 1).push(self.basic[upto - 1])
        }
    }

    /// The table after the cleanup of its basic prefixes.
    pub open spec fn cleaned(self) -> Table {
        Table { basic: self.kept(self.basic.len() as int), ..self }
    }

    /// The representative of a row among the first `upto` prefixes: the
    /// shortest prefix with that row, and of several shortest ones the one
    /// that was inserted first.
    pub open spec fn representative(self, row: Seq<bool>, upto: int) -> Option<int>
        decreases upto,
    {
        if upto <= 0 {
            None
        } else {
            let before = self.representative(row, upto - 1);
            if self.rows[upto - 1] == row && (before is None || self.prefixes[upto - 1].len()
                < self.prefixes[before->0].len()) {
                Some(upto - 1)
            } else {
                before
            }
        }
    }

    /// The basic prefixes after the first `upto` prefixes were looked at in
    /// turn. A prefix whose row a basic prefix has changes nothing: it is
    /// not shorter than that basic prefix. For a prefix whose row no basic
    /// prefix has, and which the basic prefixes of that moment do not
    /// cover, the representative of its row becomes basic.
    pub open spec fn grown(self, upto: int) -> Seq<int>
        decreases upto,
    {
        if upto <= 0 {
            self.basic
        } else {
            let before = self.grown(upto - 1);
            let table = Table { basic: before, ..self };
            let row = self.rows[upto - 1];
            if table.equivalent_basic(row, 0) is None && !table.covered(
                self.prefixes[upto - 1],
                row,
                CoverageMode::Exclusive,
            ) {
                before.push(table.representative(row, self.prefixes.len() as int)->0)
            } else {
                before
            }
        }
    }

    /// The table after its basic prefixes were rebuilt: grown over all
    /// prefixes, then cleaned.
    pub open spec fn rebuilt(self) -> Table {
        (Table { basic: self.grown(self.prefixes.len() as int), ..self }).cleaned()
    }

    /// The position in the list of basic prefixes, at or after `from`, of
    /// the first one whose row equals `signature`.
    pub open spec fn equivalent_basic(self, signature: Seq<bool>, from: int) -> Option<int>
        decreases self.basic.len() - from,
    {
        if from < 0 || from >= self.basic.len() {
            None
        } else if self.rows[self.basic[from]] == signature {
            Some(from)
        } else {
            self.equivalent_basic(signature, from + 1)
        }
    }

    /// The table after a prefix that it does not know was inserted with its
    /// row. Where a basic prefix has the same row, the new prefix takes its
    /// place if it is shorter, and nothing changes otherwise. Where none
    /// has, and the basic prefixes do not cover the new prefix, the
    /// representative of its row becomes basic, which is the new prefix
    /// unless an earlier prefix with its row is as short, and the basic
    /// prefixes are cleaned.
    pub open spec fn with_prefix(self, prefix: Seq<char>, signature: Seq<bool>) -> Table {
        let fresh = self.prefixes.len() as int;
        let added = Table { prefixes: self.prefixes.push(prefix), rows: self.rows.push(signature), ..self };
        match added.equivalent_basic(signature, 0) {
            Some(k) => if prefix.len() < self.prefixes[self.basic[k]].len() {
                Table { basic: self.basic.remove(k).push(fresh), ..added }
            } else {
                added
            },
            None => if added.covered(prefix, signature, CoverageMode::Exclusive) {
                added
            } else {
                (Table {
                    basic: self.basic.push(added.representative(signature, added.prefixes.len() as int)->0),
                    ..added
                }).cleaned()
            },
        }
    }

    /// The table after a suffix that it does not know was inserted with its
    /// column: every row grows by one verdict, and the basic prefixes are
    /// rebuilt.
    pub open spec fn with_suffix(self, suffix: Seq<char>, column: Seq<bool>) -> Table {
        (Table {
            suffixes: self.suffixes.push(suffix),
            rows: Seq::new(self.rows.len(), |i: int| self.rows[i].push(column[i])),
            ..self
        }).rebuilt()
    }

    /// The positions in the list of basic prefixes of those whose row lies
    /// within `source`, the first `upto` of them looked at.
    pub open spec fn absorbed(self, source: Seq<bool>, upto: int) -> Seq<int>
        decreases upto,
    {
        if upto <= 0 {
            Seq::empty()
        } else if within(self.rows[self.basic[upto - 1]], source) {
            self.absorbed(source, upto - 1).push(upto - 1)
        } else {
            self.absorbed(source, upto - 1)
        }
    }
}

/// What is kept of the basic prefixes are basic prefixes, in their order and
/// without repetition.
pub proof fn lemma_kept_shaped(table: Table, upto: int)
    requires
        table.framed(),
        0 <= upto <= table.basic.len(),
    ensures
        forall|x: int|
            0 <= x < table.kept(upto).len() ==> exists|k: int|
                0 <= k < upto && #[trigger] table.basic[k] == #[trigger] table.kept(upto)[x],
        forall|x: int, y: int|
            0 <= x < table.kept(upto).len() && 0 <= y < table.kept(upto).len() && x != y ==> table.kept(upto)[x]
                != table.kept(upto)[y],
        table.kept(upto).len() <= upto,
    decreases upto,
{
    if upto > 0 {
        lemma_kept_shaped(table, upto - 1);
        let fewer = table.kept(upto - 1);
        let all = table.kept(upto);
        assert forall|x: int| 0 <= x < all.len() implies exists|k: int|
            0 <= k < upto && #[trigger] table.basic[k] == #[trigger] all[x] by {
            if x < fewer.len() {
                let k = choose|k: int| 0 <= k < upto - 1 && #[trigger] table.basic[k] == fewer[x];
                assert(table.basic[k] == all[x]);
            } else {
                assert(table.basic[upto - 1] == all[x]);
            }
        }
        assert forall|x: int, y: int| 0 <= x < all.len() && 0 <= y < all.len() && x != y implies all[x] != all[y] by {
            if x < fewer.len() && y < fewer.len() {
                assert(fewer[x] != fewer[y]);
            } else if x < fewer.len() {
                let k = choose|k: int| 0 <= k < upto - 1 && #[trigger] table.basic[k] == fewer[x];
            } else if y < fewer.len() {
                let k = choose|k: int| 0 <= k < upto - 1 && #[trigger] table.basic[k] == fewer[y];
            }
        }
    }
}

/// The representative of a row has the row, and no prefix with the row is
/// shorter; there is none only where no prefix has the row.
pub proof fn lemma_representative(table: Table, row: Seq<bool>, upto: int)
    requires
        0 <= upto <= table.prefixes.len(),
    ensures
        match table.representative(row, upto) {
            Some(r) => 0 <= r < upto && table.rows[r] == row && forall|j: int|
                0 <= j < upto && #[trigger] table.rows[j] == row ==> table.prefixes[j].len() >= table.prefixes[r].len(),
            None => forall|j: int| 0 <= j < upto ==> #[trigger] table.rows[j] != row,
        },
    decreases upto,
{
    if upto > 0 {
        lemma_representative(table, row, upto - 1);
    }
}

/// Making the representative of a row basic, where no basic prefix has the
/// row, keeps the shape of the table.
pub proof fn lemma_promoted_shaped(table: Table, row: Seq<bool>)
    requires
        table.shaped(),
        table.equivalent_basic(row, 0) is None,
        table.representative(row, table.prefixes.len() as int) is Some,
    ensures
        (Table { basic: table.basic.push(table.representative(row, table.prefixes.len() as int)->0), ..table }).shaped(),
{
    let r = table.representative(row, table.prefixes.len() as int)->0;
    let out = Table { basic: table.basic.push(r), ..table };
    let last = table.basic.len() as int;
    lemma_representative(table, row, table.prefixes.len() as int);
    lemma_equivalent_basic(table, row, 0);
    assert forall|k: int| 0 <= k < out.basic.len() implies 0 <= #[trigger] out.basic[k] < out.prefixes.len() by {
        if k < last {
            assert(out.basic[k] == table.basic[k]);
        }
    }
    assert forall|k1: int, k2: int|
        0 <= k1 < out.basic.len() && 0 <= k2 < out.basic.len() && k1 != k2 implies out.rows[#[trigger] out.basic[k1]]
        != out.rows[#[trigger] out.basic[k2]] by {
        if k1 < last {
            assert(out.basic[k1] == table.basic[k1]);
        }
        if k2 < last {
            assert(out.basic[k2] == table.basic[k2]);
        }
    }
    assert forall|k1: int, k2: int|
        0 <= k1 < out.basic.len() && 0 <= k2 < out.basic.len() && k1 != k2 implies out.basic[k1] != out.basic[k2] by {
        assert(out.rows[out.basic[k1]] != out.rows[out.basic[k2]]);
    }
    assert forall|i: int, k: int|
        0 <= i < out.prefixes.len() && 0 <= k < out.basic.len() && #[trigger] out.rows[i] == out.rows[#[trigger] out.basic[k]] implies out.prefixes[i].len()
        >= out.prefixes[out.basic[k]].len() by {
        if k < last {
            assert(out.basic[k] == table.basic[k]);
        }
    }
}

/// The basic prefixes are representatives as far as the prefixes before
/// the last one go: no two have the same row, all stand before the last
/// prefix, and none of the prefixes before the last one is shorter than a
/// basic prefix with its row.
pub open spec fn canonical_before_last(table: Table) -> bool {
    &&& table.prefixes.len() >= 1
    &&& forall|k: int| 0 <= k < table.basic.len() ==> #[trigger] table.basic[k] < table.prefixes.len() - 1
    &&& forall|k1: int, k2: int|
        0 <= k1 < table.basic.len() && 0 <= k2 < table.basic.len() && k1 != k2 ==> table.rows[#[trigger] table.basic[k1]]
            != table.rows[#[trigger] table.basic[k2]]
    &&& forall|i: int, k: int|
        0 <= i < table.prefixes.len() - 1 && 0 <= k < table.basic.len() && #[trigger] table.rows[i]
            == table.rows[#[trigger] table.basic[k]] ==> table.prefixes[i].len() >= table.prefixes[table.basic[k]].len()
}

/// Where the last prefix has the row of a basic prefix and is shorter,
/// putting it in the place of that basic prefix gives the table its shape.
pub proof fn lemma_replaced_shaped(table: Table, k: int)
    requires
        table.framed(),
        canonical_before_last(table),
        0 <= k < table.basic.len(),
        table.rows[table.prefixes.len() - 1] == table.rows[table.basic[k]],
        table.prefixes[table.prefixes.len() - 1].len() < table.prefixes[table.basic[k]].len(),
    ensures
        (Table { basic: table.basic.remove(k).push(table.prefixes.len() - 1), ..table }).shaped(),
{
    let fresh = table.prefixes.len() - 1;
    let out = Table { basic: table.basic.remove(k).push(fresh), ..table };
    let last = out.basic.len() - 1;
    assert forall|x: int| 0 <= x < last implies out.basic[x] == table.basic[if x < k {
        x
    } else {
        x + 1
    }] by {}
    assert forall|x: int| 0 <= x < out.basic.len() implies 0 <= #[trigger] out.basic[x] < out.prefixes.len() by {
        if x < last {
            let x0 = if x < k {
                x
            } else {
                x + 1
            };
            assert(out.basic[x] == table.basic[x0]);
        }
    }
    assert forall|x: int, y: int|
        0 <= x < out.basic.len() && 0 <= y < out.basic.len() && x != y implies out.rows[#[trigger] out.basic[x]]
        != out.rows[#[trigger] out.basic[y]] by {
        let x0 = if x < k {
            x
        } else {
            x + 1
        };
        let y0 = if y < k {
            y
        } else {
            y + 1
        };
        if x < last {
            assert(out.basic[x] == table.basic[x0]);
        }
        if y < last {
            assert(out.basic[y] == table.basic[y0]);
        }
        if x < last && y < last {
            assert(table.rows[table.basic[x0]] != table.rows[table.basic[y0]]);
        } else if x < last {
            assert(table.rows[table.basic[x0]] != table.rows[table.basic[k]]);
        } else {
            assert(table.rows[table.basic[y0]] != table.rows[table.basic[k]]);
        }
    }
    assert forall|x: int, y: int|
        0 <= x < out.basic.len() && 0 <= y < out.basic.len() && x != y implies out.basic[x] != out.basic[y] by {
        assert(out.rows[out.basic[x]] != out.rows[out.basic[y]]);
    }
    assert forall|i: int, x: int|
        0 <= i < out.prefixes.len() && 0 <= x < out.basic.len() && #[trigger] out.rows[i] == out.rows[#[trigger] out.basic[x]] implies out.prefixes[i].len()
        >= out.prefixes[out.basic[x]].len() by {
        if x < last {
            let x0 = if x < k {
                x
            } else {
                x + 1
            };
            assert(out.basic[x] == table.basic[x0]);
            if i == fresh {
                assert(table.rows[table.basic[x0]] != table.rows[table.basic[k]]);
            }
        } else {
            if i < fresh {
                assert(table.rows[i] == table.rows[table.basic[k]]);
            }
        }
    }
}

/// Where the last prefix has the row of no basic prefix, or is not shorter
/// than the basic prefix with its row, the table has its shape.
pub proof fn lemma_last_fits(table: Table)
    requires
        table.framed(),
        canonical_before_last(table),
        match table.equivalent_basic(table.rows[table.prefixes.len() - 1], 0) {
            Some(k) => table.prefixes[table.prefixes.len() - 1].len() >= table.prefixes[table.basic[k]].len(),
            None => true,
        },
    ensures
        table.shaped(),
{
    let fresh = table.prefixes.len() - 1;
    lemma_equivalent_basic(table, table.rows[fresh], 0);
    assert forall|i: int, x: int|
        0 <= i < table.prefixes.len() && 0 <= x < table.basic.len() && #[trigger] table.rows[i] == table.rows[#[trigger] table.basic[x]] implies table.prefixes[i].len()
        >= table.prefixes[table.basic[x]].len() by {
        if i == fresh {
            match table.equivalent_basic(table.rows[fresh], 0) {
                Some(k) => {
                    if x != k {
                        assert(table.rows[table.basic[x]] != table.rows[table.basic[k]]);
                    }
                },
                None => {},
            }
        }
    }
}

/// A cleaned table has the frame of a table, and keeps its shape.
pub proof fn lemma_cleaned_shaped(table: Table)
    requires
        table.framed(),
    ensures
        table.cleaned().framed(),
        table.canonical() ==> table.cleaned().canonical(),
{
    if table.canonical() {
        lemma_kept_shaped(table, table.basic.len() as int);
        let out = table.cleaned();
        assert forall|k1: int, k2: int|
            0 <= k1 < out.basic.len() && 0 <= k2 < out.basic.len() && k1 != k2 implies out.rows[#[trigger] out.basic[k1]]
            != out.rows[#[trigger] out.basic[k2]] by {
            let a = choose|a: int| 0 <= a < table.basic.len() && #[trigger] table.basic[a] == out.basic[k1];
            let b = choose|b: int| 0 <= b < table.basic.len() && #[trigger] table.basic[b] == out.basic[k2];
            assert(out.basic[k1] != out.basic[k2]);
        }
        assert forall|i: int, k: int|
            0 <= i < out.prefixes.len() && 0 <= k < out.basic.len() && #[trigger] out.rows[i] == out.rows[#[trigger] out.basic[k]] implies out.prefixes[i].len()
            >= out.prefixes[out.basic[k]].len() by {
            let a = choose|a: int| 0 <= a < table.basic.len() && #[trigger] table.basic[a] == out.basic[k];
        }
    }
    lemma_kept_shaped(table, table.basic.len() as int);
    let out = table.cleaned();
    assert forall|x: int| 0 <= x < out.basic.len() implies 0 <= #[trigger] out.basic[x] < out.prefixes.len() by {
        let k = choose|k: int| 0 <= k < table.basic.len() && #[trigger] table.basic[k] == out.basic[x];
    }
}

/// The first basic prefix with a given row has that row, and no earlier one
/// at or after `from` has it.
pub proof fn lemma_equivalent_basic(table: Table, signature: Seq<bool>, from: int)
    requires
        0 <= from,
    ensures
        match table.equivalent_basic(signature, from) {
            Some(k) => from <= k < table.basic.len() && table.rows[table.basic[k]] == signature && forall|x: int|
                from <= x < k ==> table.rows[#[trigger] table.basic[x]] != signature,
            None => forall|x: int| from <= x < table.basic.len() ==> table.rows[#[trigger] table.basic[x]] != signature,
        },
    decreases table.basic.len() - from,
{
    if from < table.basic.len() && table.rows[table.basic[from]] != signature {
        lemma_equivalent_basic(table, signature, from + 1);
    }
}

} // verus!
