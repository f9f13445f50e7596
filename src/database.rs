use vstd::prelude::*;
use vstd::string::*;

verus! {

/// A transition record: previous, current and next identity, and how often the three
/// were seen in a row.
pub type Row = (u64, u64, u64, u64);

/// A lexicon entry: role and surface text.
pub type Entry = (Seq<char>, Seq<char>);

#[derive(Clone, Copy, Debug, PartialEq, Eq, Structural)]
pub enum ChainError {
    /// An identity that the lexicon does not hold.
    NotFound(u64),
    /// No identity or count is left to hand out.
    Full,
    /// No lexicon entry matches the seed token.
    NoAnchorMatch,
    /// The lexicon does not begin with the two sentinels.
    Corrupt,
    /// A reply anchor has no successor to pivot on.
    DeadEnd,
}

/// The four read shapes of the transition store.
#[derive(Clone, Copy, Debug, PartialEq, Eq, Structural)]
pub enum Query {
    /// Successors of a current identity, over every predecessor.
    Next(u64),
    /// Successors of an exact (previous, current) pair.
    NextAfter(u64, u64),
    /// Predecessors of a current identity, over every successor.
    Prev(u64),
    /// Predecessors of an exact (current, next) pair.
    PrevBefore(u64, u64),
}

pub open spec fn row_key(r: Row) -> (u64, u64, u64) {
    (r.0, r.1, r.2)
}

pub open spec fn query_keeps(q: Query, r: Row) -> bool {
    match q {
        Query::Next(c) => r.1 == c,
        Query::NextAfter(p, c) => r.0 == p && r.1 == c,
        Query::Prev(c) => r.1 == c,
        Query::PrevBefore(c, n) => r.1 == c && r.2 == n,
    }
}

/// The candidate a kept record gives: the identity on the far side, and its weight.
pub open spec fn query_pick(q: Query, r: Row) -> (u64, u64) {
    match q {
        Query::Next(_) | Query::NextAfter(_, _) => (r.2, r.3),
        Query::Prev(_) | Query::PrevBefore(_, _) => (r.0, r.3),
    }
}

/// The candidates that a query finds, in the order of the records.
pub open spec fn answer(rows: Seq<Row>, q: Query) -> Seq<(u64, u64)>
    decreases rows.len(),
{
    if rows.len() == 0 {
        seq![]
    } else {
        let s = answer(rows.drop_last(), q);
        if query_keeps(q, rows.last()) {
            s.push(query_pick(q, rows.last()))
        } else {
            s
        }
    }
}

pub open spec fn sum_counts(rows: Seq<Row>) -> int
    decreases rows.len(),
{
    if rows.len() == 0 {
        0
    } else {
        sum_counts(rows.drop_last()) + rows.last().3
    }
}

pub open spec fn weight_sum(c: Seq<(u64, u64)>) -> int
    decreases c.len(),
{
    if c.len() == 0 {
        0
    } else {
        weight_sum(c.drop_last()) + c.last().1
    }
}

/// The weight recorded for a triple; zero when it was never seen.
pub open spec fn count_of(rows: Seq<Row>, k: (u64, u64, u64)) -> int
    decreases rows.len(),
{
    if rows.len() == 0 {
        0
    } else {
        count_of(rows.drop_last(), k) + if row_key(rows.last()) == k {
            rows.last().3 as int
        } else {
            0
        }
    }
}

/// The position of an entry that the lexicon holds.
pub open spec fn index_in(lex: Seq<Entry>, w: Entry) -> int {
    choose|i: int| 0 <= i < lex.len() && lex[i] == w
}

/// The identity of an entry that the lexicon holds.
pub open spec fn id_in(lex: Seq<Entry>, w: Entry) -> u64 {
    (index_in(lex, w) + 1) as u64
}

/// Insert-if-absent.
pub open spec fn lexicon_add(lex: Seq<Entry>, w: Entry) -> Seq<Entry> {
    if lex.contains(w) {
        lex
    } else {
        lex.push(w)
    }
}

/// Insert-or-increment of one triple.
pub open spec fn rows_increment(rows: Seq<Row>, k: (u64, u64, u64)) -> Seq<Row> {
    if exists|i: int| 0 <= i < rows.len() && row_key(rows[i]) == k {
        let i = choose|i: int| 0 <= i < rows.len() && row_key(rows[i]) == k;
        rows.update(i, (k.0, k.1, k.2, (rows[i].3 + 1) as u64))
    } else {
        rows.push((k.0, k.1, k.2, 1u64))
    }
}

pub open spec fn valid_id(lex: Seq<Entry>, id: u64) -> bool {
    1 <= id <= lex.len()
}

pub open spec fn lexicon_unique(lex: Seq<Entry>) -> bool {
    forall|i: int, j: int| 0 <= i < j < lex.len() ==> lex[i] != lex[j]
}

pub open spec fn keys_unique(rows: Seq<Row>) -> bool {
    forall|i: int, j: int| 0 <= i < j < rows.len() ==> row_key(rows[i]) != row_key(rows[j])
}

pub open spec fn rows_wf(lex: Seq<Entry>, rows: Seq<Row>) -> bool {
    &&& forall|i: int, j: int|
        0 <= i < j < rows.len() ==> row_key(rows[i]) != row_key(rows[j])
    &&& forall|i: int|
        0 <= i < rows.len() ==> {
            &&& rows[i].3 >= 1
            &&& valid_id(lex, rows[i].0)
            &&& valid_id(lex, rows[i].1)
            &&& valid_id(lex, rows[i].2)
        }
}

/// The entries whose case-folded text equals `folded`, as identity and role.
pub open spec fn folded_matches(lex: Seq<Entry>, folded: Seq<char>) -> Seq<(u64, Seq<char>)>
    decreases lex.len(),
{
    if lex.len() == 0 {
        seq![]
    } else {
        let s = folded_matches(lex.drop_last(), folded);
        if lower_of(lex.last().1) == folded {
            s.push((lex.len() as u64, lex.last().0))
        } else {
            s
        }
    }
}

/// What `str::to_lowercase` gives for a text.
pub uninterp spec fn lower_of(s: Seq<char>) -> Seq<char>;

/// Relies on `str::to_lowercase`: the lower-case form, a function of the characters alone.
#[verifier::external_body]
fn lowercase(s: &str) -> (r: String)
    ensures
        r@ == lower_of(s@),
{
    s.to_lowercase()
}

/// The lexicon and the transition records of a chain, held in memory.
///
/// The entry at position `i` has identity `i + 1`.
pub struct MemoryDB {
    words: Vec<(String, String)>,
    rows: Vec<Row>,
    total: u64,
}

proof fn lemma_sum_counts_le_total(rows: Seq<Row>, q: Query)
    requires
        forall|i: int| 0 <= i < rows.len() ==> rows[i].3 >= 1,
    ensures
        weight_sum(answer(rows, q)) <= sum_counts(rows),
        sum_counts(rows) >= 0,
    decreases rows.len(),
{
    if rows.len() > 0 {
        let d = rows.drop_last();
        assert forall|i: int| 0 <= i < d.len() implies d[i].3 >= 1 by {
            assert(d[i] == rows[i]);
        }
        lemma_sum_counts_le_total(d, q);
        let s = answer(d, q);
        if query_keeps(q, rows.last()) {
            assert(s.push(query_pick(q, rows.last())).drop_last() =~= s);
        }
        assert(rows.last() == rows[rows.len() - 1]);
    }
}

proof fn lemma_answer_from_rows(rows: Seq<Row>, q: Query, j: int)
    requires
        0 <= j < answer(rows, q).len(),
    ensures
        exists|i: int|
            0 <= i < rows.len() && query_keeps(q, rows[i]) && query_pick(q, rows[i]) == answer(
                rows,
                q,
            )[j],
    decreases rows.len(),
{
    let s = answer(rows.drop_last(), q);
    if j < s.len() {
        lemma_answer_from_rows(rows.drop_last(), q, j);
        let i = choose|i: int|
            0 <= i < rows.drop_last().len() && query_keeps(q, rows.drop_last()[i]) && query_pick(
                q,
                rows.drop_last()[i],
            ) == s[j];
        assert(rows[i] == rows.drop_last()[i]);
    } else {
        assert(rows[rows.len() - 1] == rows.last());
    }
}

/// Every candidate of a query stands for a record that the query keeps.
pub proof fn lemma_candidate_in_rows(rows: Seq<Row>, q: Query, c: (u64, u64))
    requires
        answer(rows, q).contains(c),
    ensures
        exists|i: int| 0 <= i < rows.len() && query_keeps(q, rows[i]) && query_pick(q, rows[i]) == c,
{
    let j = choose|j: int| 0 <= j < answer(rows, q).len() && answer(rows, q)[j] == c;
    lemma_answer_from_rows(rows, q, j);
}

impl MemoryDB {
    pub closed spec fn lexicon(&self) -> Seq<Entry> {
        self.words@.map_values(|p: (String, String)| (p.0@, p.1@))
    }

    pub closed spec fn rows(&self) -> Seq<Row> {
        self.rows@
    }

    /// The running total of all weights is kept.
    pub closed spec fn total_kept(&self) -> bool {
        self.total == sum_counts(self.rows())
    }

    pub open spec fn wf(&self) -> bool {
        &&& lexicon_unique(self.lexicon())
        &&& self.lexicon().len() <= u64::MAX
        &&& rows_wf(self.lexicon(), self.rows())
        &&& self.total_kept()
    }

    /// An empty store.
    pub fn new() -> (r: Self)
        ensures
            r.wf(),
            r.lexicon() == Seq::<Entry>::empty(),
            r.rows() == Seq::<Row>::empty(),
    {
        let r = MemoryDB { words: Vec::new(), rows: Vec::new(), total: 0 };
        assert(r.lexicon() =~= Seq::<Entry>::empty());
        r
    }

    /// The identity of a (role, text) entry, added first if it is not on record.
    pub fn add_word(&mut self, tuple: (&str, &str)) -> (r: Result<u64, ChainError>)
        requires
            old(self).wf(),
        ensures
            final(self).wf(),
            final(self).rows() == old(self).rows(),
            r is Ok <==> (old(self).lexicon().contains((tuple.0@, tuple.1@)) || old(
                self,
            ).lexicon().len() < u64::MAX),
            r matches Ok(id) ==> {
                &&& final(self).lexicon() == lexicon_add(old(self).lexicon(), (tuple.0@, tuple.1@))
                &&& id == id_in(final(self).lexicon(), (tuple.0@, tuple.1@))
                &&& valid_id(final(self).lexicon(), id)
                &&& final(self).lexicon()[id - 1] == (tuple.0@, tuple.1@)
            },
            r matches Err(e) ==> e == ChainError::Full && final(self).lexicon() == old(
                self,
            ).lexicon(),
    {
        let ghost w: Entry = (tuple.0@, tuple.1@);
        let role = String::from_str(tuple.0);
        let text = String::from_str(tuple.1);
        let n = self.words.len();
        let mut i: usize = 0;
        while i < n
            invariant
                self.wf(),
                *self == *old(self),
                w == (tuple.0@, tuple.1@),
                n == self.words@.len(),
                i <= n,
                role@ == w.0,
                text@ == w.1,
                forall|j: int| 0 <= j < i ==> self.lexicon()[j] != w,
            decreases n - i,
        {
            if self.words[i].0 == role && self.words[i].1 == text {
                assert(self.lexicon()[i as int] == w);
                assert(self.lexicon().contains(w));
                proof {
                    let k = index_in(self.lexicon(), w);
                    assert(0 <= k < self.lexicon().len() && self.lexicon()[k] == w);
                    assert(k == i);
                }
                let id = (i as u64) + 1;
                assert(id == id_in(self.lexicon(), w));
                return Ok(id);
            }
            i += 1;
        }
        assert(!self.lexicon().contains(w));
        if n as u64 == u64::MAX {
            return Err(ChainError::Full);
        }
        let ghost lex0 = self.lexicon();
        self.words.push((role, text));
        assert(self.lexicon() =~= lex0.push(w));
        proof {
            let k = index_in(self.lexicon(), w);
            assert(self.lexicon()[n as int] == w);
            assert(0 <= k < self.lexicon().len() && self.lexicon()[k] == w);
            assert(k == n);
            assert forall|i: int| 0 <= i < self.rows().len() implies valid_id(
                self.lexicon(),
                self.rows()[i].0,
            ) && valid_id(self.lexicon(), self.rows()[i].1) && valid_id(
                self.lexicon(),
                self.rows()[i].2,
            ) by {}
        }
        Ok((n as u64) + 1)
    }

    /// Adds one observation of the triple (`index1`, `index2`, `index3`).
    pub fn increment(&mut self, index1: u64, index2: u64, index3: u64) -> (r: Result<
        (),
        ChainError,
    >)
        requires
            old(self).wf(),
        ensures
            final(self).wf(),
            final(self).lexicon() == old(self).lexicon(),
            r is Ok <==> (valid_id(old(self).lexicon(), index1) && valid_id(
                old(self).lexicon(),
                index2,
            ) && valid_id(old(self).lexicon(), index3) && sum_counts(old(self).rows())
                < u64::MAX),
            r is Ok ==> final(self).rows() == rows_increment(
                old(self).rows(),
                (index1, index2, index3),
            ) && sum_counts(final(self).rows()) == sum_counts(old(self).rows()) + 1,
            r matches Err(e) ==> final(self).rows() == old(self).rows() && (e == ChainError::Full
                || e matches ChainError::NotFound(_)),
            valid_id(old(self).lexicon(), index1) && valid_id(old(self).lexicon(), index2)
                && valid_id(old(self).lexicon(), index3) ==> (r matches Err(e) ==> e
                == ChainError::Full),
    {
        let n = self.words.len() as u64;
        if index1 < 1 || index1 > n {
            return Err(ChainError::NotFound(index1));
        }
        if index2 < 1 || index2 > n {
            return Err(ChainError::NotFound(index2));
        }
        if index3 < 1 || index3 > n {
            return Err(ChainError::NotFound(index3));
        }
        if self.total == u64::MAX {
            return Err(ChainError::Full);
        }
        let ghost k: (u64, u64, u64) = (index1, index2, index3);
        let ghost rows0 = self.rows@;
        let m = self.rows.len();
        let mut i: usize = 0;
        while i < m
            invariant
                self.wf(),
                *self == *old(self),
                k == (index1, index2, index3),
                1 <= index1 <= self.lexicon().len(),
                1 <= index2 <= self.lexicon().len(),
                1 <= index3 <= self.lexicon().len(),
                self.rows@ == rows0,
                m == rows0.len(),
                i <= m,
                self.total < u64::MAX,
                forall|j: int| 0 <= j < i ==> row_key(rows0[j]) != k,
            decreases m - i,
        {
            let row = self.rows[i];
            if row.0 == index1 && row.1 == index2 && row.2 == index3 {
                proof {
                    assert(row_key(rows0[i as int]) == k);
                    assert(exists|j: int| 0 <= j < rows0.len() && row_key(rows0[j]) == k);
                    let c = choose|j: int| 0 <= j < rows0.len() && row_key(rows0[j]) == k;
                    assert(c == i);
                    lemma_sum_ge_row(rows0, i as int);
                    lemma_sum_update(rows0, i as int, (row.3 + 1) as u64);
                }
                self.rows[i] = (index1, index2, index3, row.3 + 1);
                self.total = self.total + 1;
                assert(self.rows@ =~= rows0.update(i as int, (index1, index2, index3, (row.3
                    + 1) as u64)));
                return Ok(());
            }
            i += 1;
        }
        self.rows.push((index1, index2, index3, 1));
        self.total = self.total + 1;
        assert(self.rows@.drop_last() =~= rows0);
        Ok(())
    }

    /// The text of an identity.
    pub fn get_word(&self, index: u64) -> (r: Result<String, ChainError>)
        requires
            self.wf(),
        ensures
            r is Ok <==> valid_id(self.lexicon(), index),
            r matches Ok(s) ==> s@ == self.lexicon()[index - 1].1,
            r matches Err(e) ==> e == ChainError::NotFound(index),
    {
        if index < 1 || index > self.words.len() as u64 {
            return Err(ChainError::NotFound(index));
        }
        let i = (index - 1) as usize;
        Ok(self.words[i].1.clone())
    }

    /// The identity and role of every entry whose text equals `string` once both are
    /// case-folded.
    pub fn get_case_insensitive(&self, string: &str) -> (r: Vec<(u64, String)>)
        requires
            self.wf(),
        ensures
            r@.map_values(|p: (u64, String)| (p.0, p.1@)) == folded_matches(
                self.lexicon(),
                lower_of(string@),
            ),
    {
        let folded = lowercase(string);
        let mut out: Vec<(u64, String)> = Vec::new();
        let n = self.words.len();
        let mut i: usize = 0;
        assert(self.lexicon().take(0) =~= Seq::<Entry>::empty());
        while i < n
            invariant
                self.wf(),
                n == self.words@.len(),
                i <= n,
                folded@ == lower_of(string@),
                out@.map_values(|p: (u64, String)| (p.0, p.1@)) == folded_matches(
                    self.lexicon().take(i as int),
                    folded@,
                ),
            decreases n - i,
        {
            let ghost before = out@;
            let lower = lowercase(self.words[i].1.as_str());
            let ghost pre = self.lexicon().take(i as int);
            let ghost cur = self.lexicon().take(i + 1);
            assert(cur.drop_last() =~= pre);
            assert(cur.last() == self.lexicon()[i as int]);
            if lower == folded {
                out.push(((i + 1) as u64, self.words[i].0.clone()));
                assert(out@.map_values(|p: (u64, String)| (p.0, p.1@)) =~= before.map_values(
                    |p: (u64, String)| (p.0, p.1@),
                ).push(((i + 1) as u64, self.lexicon()[i as int].0)));
            }
            i += 1;
        }
        assert(self.lexicon().take(n as int) =~= self.lexicon());
        out
    }

    /// The candidates that a query finds.
    pub fn occurrences(&self, q: Query) -> (r: Vec<(u64, u64)>)
        requires
            self.wf(),
        ensures
            r@ == answer(self.rows(), q),
            weight_sum(r@) <= u64::MAX,
            forall|j: int|
                0 <= j < r@.len() ==> valid_id(self.lexicon(), (#[trigger] r@[j]).0) && r@[j].1 >= 1,
    {
        let mut out: Vec<(u64, u64)> = Vec::new();
        let m = self.rows.len();
        let mut i: usize = 0;
        assert(self.rows@.take(0) =~= Seq::<Row>::empty());
        while i < m
            invariant
                self.wf(),
                m == self.rows@.len(),
                i <= m,
                out@ == answer(self.rows@.take(i as int), q),
            decreases m - i,
        {
            let row = self.rows[i];
            let ghost cur = self.rows@.take(i + 1);
            assert(cur.drop_last() =~= self.rows@.take(i as int));
            assert(cur.last() == row);
            let keep = match q {
                Query::Next(c) => row.1 == c,
                Query::NextAfter(p, c) => row.0 == p && row.1 == c,
                Query::Prev(c) => row.1 == c,
                Query::PrevBefore(c, n) => row.1 == c && row.2 == n,
            };
            if keep {
                let pick = match q {
                    Query::Next(_) | Query::NextAfter(_, _) => (row.2, row.3),
                    Query::Prev(_) | Query::PrevBefore(_, _) => (row.0, row.3),
                };
                out.push(pick);
            }
            i += 1;
        }
        assert(self.rows@.take(m as int) =~= self.rows@);
        proof {
            lemma_sum_counts_le_total(self.rows@, q);
            assert forall|j: int| 0 <= j < out@.len() implies valid_id(
                self.lexicon(),
                #[trigger] out@[j].0,
            ) && out@[j].1 >= 1 by {
                lemma_answer_from_rows(self.rows@, q, j);
            }
        }
        out
    }

    /// Successors of `index` with their weights, over every predecessor.
    pub fn get_single_occurrences(&self, index: u64) -> (r: Vec<(u64, u64)>)
        requires
            self.wf(),
        ensures
            r@ == answer(self.rows(), Query::Next(index)),
    {
        self.occurrences(Query::Next(index))
    }

    /// Successors of the pair (`index1`, `index2`) with their weights.
    pub fn get_double_occurrences(&self, index1: u64, index2: u64) -> (r: Vec<(u64, u64)>)
        requires
            self.wf(),
        ensures
            r@ == answer(self.rows(), Query::NextAfter(index1, index2)),
    {
        self.occurrences(Query::NextAfter(index1, index2))
    }

    /// Predecessors of `index` with their weights, over every successor: each record whose
    /// current identity is `index` offers its previous identity, weighted by its count, the
    /// mirror image of `get_single_occurrences`.
    pub fn get_prev_single_occurrences(&self, index: u64) -> (r: Vec<(u64, u64)>)
        requires
            self.wf(),
        ensures
            r@ == answer(self.rows(), Query::Prev(index)),
    {
        self.occurrences(Query::Prev(index))
    }

    /// Predecessors of the pair (`index1`, `index2`) with their weights.
    pub fn get_prev_double_occurrences(&self, index1: u64, index2: u64) -> (r: Vec<(u64, u64)>)
        requires
            self.wf(),
        ensures
            r@ == answer(self.rows(), Query::PrevBefore(index1, index2)),
    {
        self.occurrences(Query::PrevBefore(index1, index2))
    }

    /// The number of lexicon entries.
    pub fn word_count(&self) -> (r: usize)
        ensures
            r == self.lexicon().len(),
    {
        self.words.len()
    }

    /// The role and text of the entry at position `i`.
    pub fn entry(&self, i: usize) -> (r: (String, String))
        requires
            i < self.lexicon().len(),
        ensures
            (r.0@, r.1@) == self.lexicon()[i as int],
    {
        (self.words[i].0.clone(), self.words[i].1.clone())
    }

    /// The number of transition records.
    pub fn row_count(&self) -> (r: usize)
        ensures
            r == self.rows().len(),
    {
        self.rows.len()
    }

    /// The transition record at position `i`.
    pub fn row(&self, i: usize) -> (r: Row)
        requires
            i < self.rows().len(),
        ensures
            r == self.rows()[i as int],
    {
        self.rows[i]
    }
}

/// An identity stays what it was when the lexicon grows at its end.
pub proof fn lemma_id_prefix(lex: Seq<Entry>, longer: Seq<Entry>, a: Entry)
    requires
        lex.len() <= longer.len(),
        forall|i: int| 0 <= i < lex.len() ==> longer[i] == lex[i],
        lexicon_unique(longer),
        lex.contains(a),
    ensures
        id_in(longer, a) == id_in(lex, a),
        longer.contains(a),
{
    let i = index_in(lex, a);
    assert(longer[i] == a);
    let k = index_in(longer, a);
    assert(0 <= k < longer.len() && longer[k] == a);
}

/// Two entries on record with one identity are the same entry.
pub proof fn lemma_id_injective(lex: Seq<Entry>, a: Entry, b: Entry)
    requires
        lex.len() <= u64::MAX,
        lex.contains(a),
        lex.contains(b),
        id_in(lex, a) == id_in(lex, b),
    ensures
        a == b,
{
    let i = index_in(lex, a);
    let j = index_in(lex, b);
    assert(0 <= i < lex.len() && lex[i] == a);
    assert(0 <= j < lex.len() && lex[j] == b);
}

/// Adding an entry keeps the lexicon free of duplicates and puts the entry on record.
pub proof fn lemma_add_unique(lex: Seq<Entry>, w: Entry)
    requires
        lexicon_unique(lex),
    ensures
        lexicon_unique(lexicon_add(lex, w)),
        lexicon_add(lex, w).contains(w),
        lexicon_add(lex, w).len() <= lex.len() + 1,
        forall|i: int| 0 <= i < lex.len() ==> lexicon_add(lex, w)[i] == lex[i],
{
    if !lex.contains(w) {
        let l = lex.push(w);
        assert(l[lex.len() as int] == w);
        assert forall|i: int, j: int| 0 <= i < j < l.len() implies l[i] != l[j] by {
            if j == lex.len() {
                assert(l[i] == lex[i]);
            }
        }
    }
}

/// Adding an entry twice gives the same identity both times and leaves it on record
/// once: the second addition changes nothing.
pub proof fn lemma_add_word_idempotent(lex: Seq<Entry>, w: Entry)
    requires
        lexicon_unique(lex),
    ensures
        lexicon_add(lexicon_add(lex, w), w) == lexicon_add(lex, w),
        id_in(lexicon_add(lexicon_add(lex, w), w), w) == id_in(lexicon_add(lex, w), w),
        forall|i: int, j: int|
            0 <= i < lexicon_add(lex, w).len() && 0 <= j < lexicon_add(lex, w).len()
                && lexicon_add(lex, w)[i] == w && lexicon_add(lex, w)[j] == w ==> i == j,
{
    lemma_add_unique(lex, w);
    let l = lexicon_add(lex, w);
    assert forall|i: int, j: int|
        0 <= i < l.len() && 0 <= j < l.len() && l[i] == w && l[j] == w implies i == j by {
        if i < j {
            assert(l[i] != l[j]);
        } else if j < i {
            assert(l[j] != l[i]);
        }
    }
}

/// Entries added one after another, each if absent.
pub open spec fn lexicon_add_all(lex: Seq<Entry>, ws: Seq<Entry>) -> Seq<Entry>
    decreases ws.len(),
{
    if ws.len() == 0 {
        lex
    } else {
        lexicon_add(lexicon_add_all(lex, ws.drop_last()), ws.last())
    }
}

/// Once an entry is on record, any later additions, of it or of other entries, keep it
/// on record once under the same identity, and adding it again changes nothing.
pub proof fn lemma_identity_kept(lex: Seq<Entry>, w: Entry, ws: Seq<Entry>)
    requires
        lexicon_unique(lex),
        lex.contains(w),
    ensures
        lexicon_unique(lexicon_add_all(lex, ws)),
        lexicon_add_all(lex, ws).contains(w),
        id_in(lexicon_add_all(lex, ws), w) == id_in(lex, w),
        lexicon_add(lexicon_add_all(lex, ws), w) == lexicon_add_all(lex, ws),
    decreases ws.len(),
{
    if ws.len() > 0 {
        let l = lexicon_add_all(lex, ws.drop_last());
        lemma_identity_kept(lex, w, ws.drop_last());
        lemma_add_unique(l, ws.last());
        let i = index_in(l, w);
        assert(0 <= i < l.len() && l[i] == w);
        let l2 = lexicon_add(l, ws.last());
        assert(l2[i] == w);
        let k = index_in(l2, w);
        assert(0 <= k < l2.len() && l2[k] == w);
    }
}

proof fn lemma_count_update(rows: Seq<Row>, i: int, c: u64, k: (u64, u64, u64))
    requires
        0 <= i < rows.len(),
    ensures
        count_of(rows.update(i, (rows[i].0, rows[i].1, rows[i].2, c)), k) == count_of(rows, k) + if row_key(rows[i]) == k {
            c - rows[i].3
        } else {
            0
        },
    decreases rows.len(),
{
    let u = rows.update(i, (rows[i].0, rows[i].1, rows[i].2, c));
    if i == rows.len() - 1 {
        assert(u.drop_last() =~= rows.drop_last());
    } else {
        lemma_count_update(rows.drop_last(), i, c, k);
        assert(u.drop_last() =~= rows.drop_last().update(i, (rows[i].0, rows[i].1, rows[i].2, c)));
    }
}

proof fn lemma_count_unique(rows: Seq<Row>, i: int)
    requires
        keys_unique(rows),
        0 <= i < rows.len(),
    ensures
        count_of(rows, row_key(rows[i])) == rows[i].3,
    decreases rows.len(),
{
    let d = rows.drop_last();
    if i < rows.len() - 1 {
        lemma_count_unique(d, i);
        assert(row_key(rows.last()) != row_key(rows[i])) by {
            assert(rows.last() == rows[rows.len() - 1]);
        }
    } else {
        lemma_count_absent(d, row_key(rows[i]));
    }
}

pub proof fn lemma_count_absent(rows: Seq<Row>, k: (u64, u64, u64))
    requires
        forall|j: int| 0 <= j < rows.len() ==> row_key(rows[j]) != k,
    ensures
        count_of(rows, k) == 0,
    decreases rows.len(),
{
    if rows.len() > 0 {
        assert(row_key(rows[rows.len() - 1]) != k);
        lemma_count_absent(rows.drop_last(), k);
    }
}

/// An increment adds one to the weight of its triple and changes no other: a triple seen
/// for the first time has weight one.
pub proof fn lemma_increment_counts(rows: Seq<Row>, k: (u64, u64, u64), k2: (u64, u64, u64))
    requires
        keys_unique(rows),
        count_of(rows, k) < u64::MAX,
    ensures
        count_of(rows_increment(rows, k), k2) == count_of(rows, k2) + if k2 == k {
            1int
        } else {
            0int
        },
        keys_unique(rows_increment(rows, k)),
{
    if exists|i: int| 0 <= i < rows.len() && row_key(rows[i]) == k {
        let i = choose|i: int| 0 <= i < rows.len() && row_key(rows[i]) == k;
        lemma_count_unique(rows, i);
        lemma_count_update(rows, i, (rows[i].3 + 1) as u64, k2);
        let u = rows_increment(rows, k);
        assert forall|a: int, b: int| 0 <= a < b < u.len() implies row_key(u[a]) != row_key(u[b]) by {
            assert(row_key(u[a]) == row_key(rows[a]));
            assert(row_key(u[b]) == row_key(rows[b]));
        }
    } else {
        let u = rows.push((k.0, k.1, k.2, 1u64));
        assert(u.drop_last() =~= rows);
        assert forall|a: int, b: int| 0 <= a < b < u.len() implies row_key(u[a]) != row_key(u[b]) by {
            if b == rows.len() {
                assert(row_key(u[a]) == row_key(rows[a]));
            }
        }
    }
}

/// An increment adds one to the total weight.
pub proof fn lemma_increment_sum(rows: Seq<Row>, k: (u64, u64, u64))
    requires
        sum_counts(rows) < u64::MAX,
    ensures
        sum_counts(rows_increment(rows, k)) == sum_counts(rows) + 1,
        count_of(rows, k) <= sum_counts(rows),
{
    lemma_count_le_sum(rows, k);
    if exists|i: int| 0 <= i < rows.len() && row_key(rows[i]) == k {
        let i = choose|i: int| 0 <= i < rows.len() && row_key(rows[i]) == k;
        lemma_sum_ge_row(rows, i);
        lemma_sum_update(rows, i, (rows[i].3 + 1) as u64);
    } else {
        assert(rows.push((k.0, k.1, k.2, 1u64)).drop_last() =~= rows);
    }
}

/// The weight of one triple is at most the total weight.
pub proof fn lemma_count_le_sum(rows: Seq<Row>, k: (u64, u64, u64))
    ensures
        0 <= count_of(rows, k) <= sum_counts(rows),
    decreases rows.len(),
{
    if rows.len() > 0 {
        lemma_count_le_sum(rows.drop_last(), k);
    }
}

proof fn lemma_sum_ge_row(rows: Seq<Row>, i: int)
    requires
        0 <= i < rows.len(),
    ensures
        sum_counts(rows) >= rows[i].3,
    decreases rows.len(),
{
    lemma_count_le_sum(rows.drop_last(), (0, 0, 0));
    if i < rows.len() - 1 {
        lemma_sum_ge_row(rows.drop_last(), i);
    }
}

proof fn lemma_sum_update(rows: Seq<Row>, i: int, c: u64)
    requires
        0 <= i < rows.len(),
    ensures
        sum_counts(rows.update(i, (rows[i].0, rows[i].1, rows[i].2, c))) == sum_counts(rows)
            - rows[i].3 + c,
    decreases rows.len(),
{
    let u = rows.update(i, (rows[i].0, rows[i].1, rows[i].2, c));
    if i == rows.len() - 1 {
        assert(u.drop_last() =~= rows.drop_last());
    } else {
        lemma_sum_update(rows.drop_last(), i, c);
        assert(u.drop_last() =~= rows.drop_last().update(
            i,
            (rows[i].0, rows[i].1, rows[i].2, c),
        ));
    }
}

} // verus!
