use vstd::prelude::*;

use super::split::{corpus_lines_of, kept_line, lines_from, strings_view, tokens_of};
use super::{end_entry, start_entry};
use crate::database::{
    count_of, id_in, index_in, keys_unique, lemma_add_unique, lemma_count_absent, lemma_count_le_sum,
    lemma_id_injective, lemma_id_prefix, lemma_increment_counts, lemma_increment_sum, lexicon_add,
    lexicon_unique, row_key, rows_increment, rows_wf, sum_counts, valid_id, Entry, Row,
};

verus! {

/// The role of the token at position `k` of a line of `n` tokens.
pub open spec fn role_of(k: int, n: int) -> Seq<char> {
    if k == n - 1 {
        "last"@
    } else if k == 0 {
        "first"@
    } else {
        "middle"@
    }
}

/// The entry at position `j` of a line framed by its sentinels: start, start, the
/// tokens with their roles, end.
pub open spec fn node_of(tokens: Seq<Seq<char>>, j: int) -> Entry {
    if j < 2 {
        start_entry()
    } else if j == tokens.len() + 2 {
        end_entry()
    } else {
        (role_of(j - 2, tokens.len() as int), tokens[j - 2])
    }
}

pub type Triple = (Entry, Entry, Entry);

/// The triples of a line: each three consecutive entries of the framed line.
pub open spec fn line_triples(tokens: Seq<Seq<char>>) -> Seq<Triple> {
    Seq::new(
        (tokens.len() + 1) as nat,
        |k: int| (node_of(tokens, k), node_of(tokens, k + 1), node_of(tokens, k + 2)),
    )
}

/// The identities of a triple's entries.
pub open spec fn ids_of(lex: Seq<Entry>, tr: Triple) -> (u64, u64, u64) {
    (id_in(lex, tr.0), id_in(lex, tr.1), id_in(lex, tr.2))
}

/// One triple ingested: its entries added if absent, then its weight incremented.
pub open spec fn ingest_one(lex: Seq<Entry>, rows: Seq<Row>, tr: Triple) -> (Seq<Entry>, Seq<Row>) {
    let l = lexicon_add(lexicon_add(lexicon_add(lex, tr.0), tr.1), tr.2);
    (l, rows_increment(rows, ids_of(l, tr)))
}

/// Triples ingested in order.
pub open spec fn ingest(lex: Seq<Entry>, rows: Seq<Row>, trs: Seq<Triple>) -> (Seq<Entry>, Seq<Row>)
    decreases trs.len(),
{
    if trs.len() == 0 {
        (lex, rows)
    } else {
        let p = ingest(lex, rows, trs.drop_last());
        ingest_one(p.0, p.1, trs.last())
    }
}

/// Identities stay what they were when an entry is added.
pub proof fn lemma_id_stable(lex: Seq<Entry>, w: Entry, a: Entry)
    requires
        lexicon_unique(lexicon_add(lex, w)),
        lex.contains(a),
    ensures
        id_in(lexicon_add(lex, w), a) == id_in(lex, a),
        lexicon_add(lex, w).contains(a),
{
    let l = lexicon_add(lex, w);
    let i = index_in(lex, a);
    assert(l[i] == a);
    let k = index_in(l, a);
    assert(0 <= k < l.len() && l[k] == a);
}

/// Entry `k + o` of the framed line; see `node_of`.
pub(crate) fn node_at<'a>(tokens: &'a Vec<String>, k: usize, o: usize) -> (r: (&'a str, &'a str))
    requires
        k <= tokens@.len(),
        o <= 2,
    ensures
        (r.0@, r.1@) == node_of(strings_view(tokens@), k + o),
{
    let n = tokens.len();
    if o == 2 && k == n {
        return ("end", "");
    }
    if k < 2 - o {
        return ("start", "");
    }
    let t = k - (2 - o);
    let role = if t == n - 1 {
        "last"
    } else if t == 0 {
        "first"
    } else {
        "middle"
    };
    (role, tokens[t].as_str())
}

/// How often a triple occurs in a sequence of triples.
pub open spec fn multiplicity(trs: Seq<Triple>, tr: Triple) -> nat
    decreases trs.len(),
{
    if trs.len() == 0 {
        0
    } else {
        multiplicity(trs.drop_last(), tr) + if trs.last() == tr {
            1nat
        } else {
            0nat
        }
    }
}

/// What ingesting triples keeps: the lexicon only grows at its end, by at most three
/// entries a triple, stays free of duplicates and holds every entry ingested; the records
/// keep one per triple; each triple adds one to the total weight.
pub proof fn lemma_ingest_shape(lex: Seq<Entry>, rows: Seq<Row>, trs: Seq<Triple>)
    requires
        lexicon_unique(lex),
        keys_unique(rows),
        lex.len() + 3 * trs.len() <= u64::MAX,
        sum_counts(rows) + trs.len() <= u64::MAX,
    ensures
        lexicon_unique(ingest(lex, rows, trs).0),
        keys_unique(ingest(lex, rows, trs).1),
        lex.len() <= ingest(lex, rows, trs).0.len() <= lex.len() + 3 * trs.len(),
        sum_counts(ingest(lex, rows, trs).1) == sum_counts(rows) + trs.len(),
        forall|i: int| 0 <= i < lex.len() ==> ingest(lex, rows, trs).0[i] == lex[i],
        forall|j: int|
            0 <= j < trs.len() ==> {
                &&& ingest(lex, rows, trs).0.contains(#[trigger] trs[j].0)
                &&& ingest(lex, rows, trs).0.contains(trs[j].1)
                &&& ingest(lex, rows, trs).0.contains(trs[j].2)
            },
    decreases trs.len(),
{
    if trs.len() > 0 {
        let d = trs.drop_last();
        lemma_ingest_shape(lex, rows, d);
        let p = ingest(lex, rows, d);
        let last = trs.last();
        let l1 = lexicon_add(p.0, last.0);
        let l2 = lexicon_add(l1, last.1);
        let l3 = lexicon_add(l2, last.2);
        lemma_add_unique(p.0, last.0);
        lemma_add_unique(l1, last.1);
        lemma_add_unique(l2, last.2);
        assert(l3.len() >= l2.len() >= l1.len() >= p.0.len() >= lex.len());
        assert forall|i: int| 0 <= i < p.0.len() implies l3[i] == p.0[i] by {
            assert(l1[i] == p.0[i]);
            assert(l2[i] == p.0[i]);
        }
        assert(l3.contains(last.0)) by {
            lemma_id_prefix(l1, l3, last.0);
        }
        assert(l3.contains(last.1)) by {
            lemma_id_prefix(l2, l3, last.1);
        }
        assert forall|j: int| 0 <= j < trs.len() implies {
            &&& l3.contains(#[trigger] trs[j].0)
            &&& l3.contains(trs[j].1)
            &&& l3.contains(trs[j].2)
        } by {
            if j < d.len() {
                assert(trs[j] == d[j]);
                lemma_id_prefix(p.0, l3, d[j].0);
                lemma_id_prefix(p.0, l3, d[j].1);
                lemma_id_prefix(p.0, l3, d[j].2);
            } else {
                assert(trs[j] == last);
            }
        }
        let key = ids_of(l3, last);
        lemma_count_le_sum(p.1, key);
        lemma_increment_counts(p.1, key, key);
        lemma_increment_sum(p.1, key);
    }
}

/// An identity on record is at most the lexicon's length.
proof fn lemma_id_bound(lex: Seq<Entry>, a: Entry)
    requires
        lex.contains(a),
        lex.len() <= u64::MAX,
    ensures
        1 <= id_in(lex, a) <= lex.len(),
{
    let i = index_in(lex, a);
    assert(0 <= i < lex.len() && lex[i] == a);
}

/// A key with an identity beyond the lexicon that ingestion reaches keeps its weight.
proof fn lemma_ingest_untouched(lex: Seq<Entry>, rows: Seq<Row>, trs: Seq<Triple>, k: (u64, u64, u64))
    requires
        lexicon_unique(lex),
        keys_unique(rows),
        lex.len() + 3 * trs.len() <= u64::MAX,
        sum_counts(rows) + trs.len() <= u64::MAX,
        k.0 > ingest(lex, rows, trs).0.len() || k.1 > ingest(lex, rows, trs).0.len() || k.2 > ingest(
            lex,
            rows,
            trs,
        ).0.len(),
    ensures
        count_of(ingest(lex, rows, trs).1, k) == count_of(rows, k),
    decreases trs.len(),
{
    if trs.len() > 0 {
        let d = trs.drop_last();
        lemma_ingest_shape(lex, rows, d);
        lemma_ingest_shape(lex, rows, trs);
        let p = ingest(lex, rows, d);
        let last = trs.last();
        let l3 = ingest(lex, rows, trs).0;
        lemma_ingest_untouched(lex, rows, d, k);
        assert(trs[trs.len() - 1] == last);
        lemma_id_bound(l3, last.0);
        lemma_id_bound(l3, last.1);
        lemma_id_bound(l3, last.2);
        let key = ids_of(l3, last);
        lemma_count_le_sum(p.1, key);
        lemma_increment_counts(p.1, key, k);
    }
}

proof fn lemma_multiplicity_occurs(trs: Seq<Triple>, tr: Triple)
    requires
        multiplicity(trs, tr) > 0,
    ensures
        exists|j: int| 0 <= j < trs.len() && trs[j] == tr,
    decreases trs.len(),
{
    if trs.last() != tr {
        lemma_multiplicity_occurs(trs.drop_last(), tr);
        let j = choose|j: int| 0 <= j < trs.drop_last().len() && trs.drop_last()[j] == tr;
        assert(trs[j] == tr);
    } else {
        assert(trs[trs.len() - 1] == tr);
    }
}

/// A triple with an entry that a shorter lexicon lacks has an identity beyond it.
proof fn lemma_new_entry_beyond(short: Seq<Entry>, l: Seq<Entry>, tr: Triple)
    requires
        short.len() <= l.len() <= u64::MAX,
        forall|i: int| 0 <= i < short.len() ==> l[i] == short[i],
        l.contains(tr.0),
        l.contains(tr.1),
        l.contains(tr.2),
        !(short.contains(tr.0) && short.contains(tr.1) && short.contains(tr.2)),
    ensures
        ids_of(l, tr).0 > short.len() || ids_of(l, tr).1 > short.len() || ids_of(l, tr).2
            > short.len(),
{
    let e = if !short.contains(tr.0) {
        tr.0
    } else if !short.contains(tr.1) {
        tr.1
    } else {
        tr.2
    };
    let i = index_in(l, e);
    assert(0 <= i < l.len() && l[i] == e);
    if i < short.len() {
        assert(short[i] == e);
    }
}

/// No record has a key with an identity beyond the lexicon.
proof fn lemma_count_beyond(lex: Seq<Entry>, rows: Seq<Row>, k: (u64, u64, u64))
    requires
        rows_wf(lex, rows),
        k.0 > lex.len() || k.1 > lex.len() || k.2 > lex.len(),
    ensures
        count_of(rows, k) == 0,
{
    assert forall|j: int| 0 <= j < rows.len() implies row_key(rows[j]) != k by {
        assert(valid_id(lex, rows[j].0) && valid_id(lex, rows[j].1) && valid_id(lex, rows[j].2));
    }
    lemma_count_absent(rows, k);
}

/// Ingesting triples adds, to the weight of each triple that ends up on record, the
/// number of times it occurs among them.
proof fn lemma_ingest_adds(lex: Seq<Entry>, rows: Seq<Row>, trs: Seq<Triple>, tr: Triple)
    requires
        lexicon_unique(lex),
        keys_unique(rows),
        lex.len() + 3 * trs.len() <= u64::MAX,
        sum_counts(rows) + trs.len() <= u64::MAX,
        ingest(lex, rows, trs).0.contains(tr.0),
        ingest(lex, rows, trs).0.contains(tr.1),
        ingest(lex, rows, trs).0.contains(tr.2),
    ensures
        count_of(ingest(lex, rows, trs).1, ids_of(ingest(lex, rows, trs).0, tr)) == count_of(
            rows,
            ids_of(ingest(lex, rows, trs).0, tr),
        ) + multiplicity(trs, tr),
    decreases trs.len(),
{
    if trs.len() > 0 {
        lemma_ingest_shape(lex, rows, trs);
        let l = ingest(lex, rows, trs).0;
        let k = ids_of(l, tr);
        let d = trs.drop_last();
        lemma_ingest_shape(lex, rows, d);
        let p = ingest(lex, rows, d);
        let last = trs.last();
        assert(trs[trs.len() - 1] == last);
        assert(l.contains(trs[trs.len() - 1].0));
        assert(l.contains(last.0) && l.contains(last.1) && l.contains(last.2));
        let key = ids_of(l, last);
        assert(ingest(lex, rows, trs).1 == rows_increment(p.1, key));
        assert(multiplicity(trs, tr) == multiplicity(d, tr) + if last == tr {
            1int
        } else {
            0int
        });
        lemma_count_le_sum(p.1, key);
        lemma_increment_counts(p.1, key, k);
        if key == k {
            lemma_id_injective(l, last.0, tr.0);
            lemma_id_injective(l, last.1, tr.1);
            lemma_id_injective(l, last.2, tr.2);
        }
        assert forall|i: int| 0 <= i < p.0.len() implies l[i] == p.0[i] by {
            let l1 = lexicon_add(p.0, last.0);
            let l2 = lexicon_add(l1, last.1);
            lemma_add_unique(p.0, last.0);
            lemma_add_unique(l1, last.1);
            lemma_add_unique(l2, last.2);
            assert(l1[i] == p.0[i]);
            assert(l2[i] == p.0[i]);
        }
        assert(l.len() >= p.0.len());
        if p.0.contains(tr.0) && p.0.contains(tr.1) && p.0.contains(tr.2) {
            lemma_ingest_adds(lex, rows, d, tr);
            lemma_id_prefix(p.0, l, tr.0);
            lemma_id_prefix(p.0, l, tr.1);
            lemma_id_prefix(p.0, l, tr.2);
            assert(ids_of(p.0, tr) == k);
            assert(count_of(p.1, k) == count_of(rows, k) + multiplicity(d, tr));
        } else {
            if multiplicity(d, tr) > 0 {
                lemma_multiplicity_occurs(d, tr);
                let j = choose|j: int| 0 <= j < d.len() && d[j] == tr;
                assert(p.0.contains(d[j].0) && p.0.contains(d[j].1) && p.0.contains(d[j].2));
            }
            lemma_new_entry_beyond(p.0, l, tr);
            lemma_ingest_untouched(lex, rows, d, k);
            assert(multiplicity(d, tr) == 0);
            assert(count_of(p.1, k) == count_of(rows, k));
        }
        assert(count_of(rows_increment(p.1, key), k) == count_of(p.1, k) + if k == key {
            1int
        } else {
            0int
        });
        assert((k == key) == (last == tr));
    }
}

/// Ingesting triples adds, to the weight of each triple that ends up on record, the
/// number of times it occurs among them; a triple with an entry that was not on record
/// before had no weight, so its weight is that number.
pub proof fn lemma_ingest_counts(lex: Seq<Entry>, rows: Seq<Row>, trs: Seq<Triple>, tr: Triple)
    requires
        lexicon_unique(lex),
        rows_wf(lex, rows),
        lex.len() + 3 * trs.len() <= u64::MAX,
        sum_counts(rows) + trs.len() <= u64::MAX,
        ingest(lex, rows, trs).0.contains(tr.0),
        ingest(lex, rows, trs).0.contains(tr.1),
        ingest(lex, rows, trs).0.contains(tr.2),
    ensures
        count_of(ingest(lex, rows, trs).1, ids_of(ingest(lex, rows, trs).0, tr)) == count_of(
            rows,
            ids_of(ingest(lex, rows, trs).0, tr),
        ) + multiplicity(trs, tr),
        !(lex.contains(tr.0) && lex.contains(tr.1) && lex.contains(tr.2)) ==> count_of(
            ingest(lex, rows, trs).1,
            ids_of(ingest(lex, rows, trs).0, tr),
        ) == multiplicity(trs, tr),
{
    lemma_ingest_adds(lex, rows, trs, tr);
    lemma_ingest_shape(lex, rows, trs);
    let l = ingest(lex, rows, trs).0;
    if !(lex.contains(tr.0) && lex.contains(tr.1) && lex.contains(tr.2)) {
        lemma_new_entry_beyond(lex, l, tr);
        lemma_count_beyond(lex, rows, ids_of(l, tr));
    }
}

/// Whether `l` is `lex` with a first part of a triple's entries added: what stands after
/// ingesting the triple failed.
pub open spec fn entries_partly_added(lex: Seq<Entry>, tr: Triple, l: Seq<Entry>) -> bool {
    let l1 = lexicon_add(lex, tr.0);
    let l2 = lexicon_add(l1, tr.1);
    let l3 = lexicon_add(l2, tr.2);
    l == lex || l == l1 || l == l2 || l == l3
}

/// Whether (`l`, `r`) is what stands after ingesting `trs` failed: some first triples were
/// ingested in full, and of the next one only some entries were added.
pub open spec fn failed_within(lex: Seq<Entry>, rows: Seq<Row>, trs: Seq<Triple>, l: Seq<Entry>, r: Seq<Row>) -> bool {
    exists|k: int|
        0 <= k < trs.len() && r == ingest(lex, rows, trs.take(k)).1 && entries_partly_added(
            ingest(lex, rows, trs.take(k)).0,
            trs[k],
            l,
        )
}

/// The triples that ingesting lines goes through: one more than each line's tokens.
pub open spec fn lines_cost(lines: Seq<Seq<char>>) -> nat
    decreases lines.len(),
{
    if lines.len() == 0 {
        0
    } else {
        lines_cost(lines.drop_last()) + tokens_of(lines.last()).len() + 1
    }
}

/// A first part of the lines costs no more than all of them.
pub proof fn lemma_lines_cost_prefix(lines: Seq<Seq<char>>, j: int)
    requires
        0 <= j <= lines.len(),
    ensures
        lines_cost(lines.take(j)) <= lines_cost(lines),
    decreases lines.len(),
{
    if j < lines.len() {
        lemma_lines_cost_prefix(lines.drop_last(), j);
        assert(lines.drop_last().take(j) =~= lines.take(j));
    } else {
        assert(lines.take(j) =~= lines);
    }
}

/// Lines ingested in order, each by the triples of its tokens.
pub open spec fn ingest_lines(lex: Seq<Entry>, rows: Seq<Row>, lines: Seq<Seq<char>>) -> (Seq<Entry>, Seq<Row>)
    decreases lines.len(),
{
    if lines.len() == 0 {
        (lex, rows)
    } else {
        let p = ingest_lines(lex, rows, lines.drop_last());
        ingest(p.0, p.1, line_triples(tokens_of(lines.last())))
    }
}

proof fn lemma_lines_have_tokens(rest: Seq<char>, cur: Seq<char>, i: int)
    requires
        0 <= i < lines_from(rest, cur).len(),
    ensures
        tokens_of(lines_from(rest, cur)[i]).len() > 0,
    decreases rest.len(),
{
    if rest.len() == 0 {
    } else if rest[0] == '\n' {
        let k = kept_line(cur);
        if i >= k.len() {
            lemma_lines_have_tokens(rest.drop_first(), seq![], i - k.len());
        }
    } else {
        lemma_lines_have_tokens(rest.drop_first(), cur.push(rest[0]), i);
    }
}

/// Every line of a corpus that is kept gives tokens.
pub(crate) proof fn lemma_corpus_line_has_tokens(s: Seq<char>, i: int)
    requires
        0 <= i < corpus_lines_of(s).len(),
    ensures
        tokens_of(corpus_lines_of(s)[i]).len() > 0,
{
    lemma_lines_have_tokens(s, seq![], i);
}

} // verus!
