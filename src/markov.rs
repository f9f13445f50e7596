use vstd::prelude::*;
use vstd::string::*;

mod random;
pub mod ingest;
pub mod split;

use crate::database::{
    answer, folded_matches, lemma_candidate_in_rows, lexicon_add, lower_of, sum_counts, valid_id,
    ChainError, Entry, MemoryDB, Query, Row,
};
use ingest::{
    entries_partly_added, failed_within, lemma_lines_cost_prefix, lines_cost, ids_of, ingest, ingest_lines, ingest_one, lemma_corpus_line_has_tokens, lemma_id_stable, line_triples,
    node_at, Triple,
};
use random::{choose_weighted, random_below};
use split::{
    corpus_lines, corpus_lines_of, is_punct_char, is_punct_token, is_punctuation_token, split_sentence,
    strings_view, tokens_of,
};

verus! {

/// Identity of the chain-start sentinel.
pub const START_INDEX: u64 = 2;

/// Identity of the chain-end sentinel.
pub const END_INDEX: u64 = 1;

pub const DEFAULT_HYBRID_THRESHOLD: u64 = 10;

pub const DEFAULT_CHANCE: u64 = 10;

/// The most tokens that one walk takes.
pub const MAX_WALK: u64 = 100000;

pub open spec fn start_entry() -> Entry {
    ("start"@, ""@)
}

pub open spec fn end_entry() -> Entry {
    ("end"@, ""@)
}

/// Which transition records a generation step samples from.
#[derive(Clone, Copy, Debug, PartialEq, Eq, Structural)]
pub enum MarkovType {
    /// The current token alone decides the next one.
    Single(u64),
    /// The previous and the current token decide the next one.
    Double(u64),
    /// As `Double`, but a pick of weight below the threshold is drawn again as `Single`.
    Hybrid(u64),
}

#[derive(Clone, Copy, Debug, PartialEq, Eq, Structural)]
pub enum ReplyMode {
    /// Replies are empty.
    Off,
    /// Replies are plain generations.
    Random,
    /// Replies are anchored on a token of the seed text.
    Reply,
    /// As `Reply`, but a reply equal to the seed text is replaced by a plain generation.
    ReplyUnique,
}

impl Default for MarkovType {
    fn default() -> (r: Self)
        ensures
            r == MarkovType::Hybrid(DEFAULT_HYBRID_THRESHOLD),
    {
        MarkovType::Hybrid(DEFAULT_HYBRID_THRESHOLD)
    }
}

impl Default for ReplyMode {
    fn default() -> (r: Self)
        ensures
            r == ReplyMode::Reply,
    {
        ReplyMode::Reply
    }
}

/// Direction of a walk: towards the end sentinel, or back towards the start sentinel.
#[derive(Clone, Copy, Debug, PartialEq, Eq, Structural)]
pub enum Direction {
    Forward,
    Backward,
}

/// The sentinel at which a walk in this direction stops.
pub open spec fn walk_end(dir: Direction) -> u64 {
    match dir {
        Direction::Forward => END_INDEX,
        Direction::Backward => START_INDEX,
    }
}

/// The pair query of a step from `curr`, whose neighbour on the side already walked is
/// `old`.
pub open spec fn pair_query(dir: Direction, old: u64, curr: u64) -> Query {
    match dir {
        Direction::Forward => Query::NextAfter(old, curr),
        Direction::Backward => Query::PrevBefore(curr, old),
    }
}

/// The single query of a step from `curr`.
pub open spec fn single_query(dir: Direction, curr: u64) -> Query {
    match dir {
        Direction::Forward => Query::Next(curr),
        Direction::Backward => Query::Prev(curr),
    }
}

/// What one step decides from the candidate drawn from the pair records and the one
/// drawn from the single records (each `None` when there was nothing to draw or it was
/// not drawn).
pub open spec fn next_choice(t: MarkovType, pair_pick: Option<(u64, u64)>, single_pick: Option<
    (u64, u64),
>) -> Option<u64> {
    match t {
        MarkovType::Single(_) => match single_pick {
            Some(c) => Some(c.0),
            None => None,
        },
        MarkovType::Double(_) => match pair_pick {
            Some(c) => Some(c.0),
            None => None,
        },
        MarkovType::Hybrid(threshold) => match pair_pick {
            None => None,
            Some(c) => if c.1 < threshold {
                match single_pick {
                    Some(s) => Some(s.0),
                    None => None,
                }
            } else {
                Some(c.0)
            },
        },
    }
}

/// Whether the candidates hold `n` with a positive weight.
pub open spec fn offers(cands: Seq<(u64, u64)>, n: u64) -> bool {
    exists|c: (u64, u64)| cands.contains(c) && c.0 == n && c.1 > 0
}

/// Whether a step from (`old`, `curr`) may lead to `n`.
#[verifier::opaque]
pub open spec fn step_ok(t: MarkovType, rows: Seq<Row>, dir: Direction, old: u64, curr: u64, n: u64) -> bool {
    let pair = answer(rows, pair_query(dir, old, curr));
    let single = answer(rows, single_query(dir, curr));
    match t {
        MarkovType::Single(_) => offers(single, n),
        MarkovType::Double(_) => offers(pair, n),
        MarkovType::Hybrid(threshold) => (exists|c: (u64, u64)|
            pair.contains(c) && c.0 == n && c.1 >= threshold) || ((exists|c: (u64, u64)|
            pair.contains(c) && 0 < c.1 < threshold) && offers(single, n)),
    }
}

/// Whether `steps` is a complete walk from (`old`, `curr`): each identity may follow the
/// two before it and none is the end of the walk; and the walk stopped because it took
/// `MAX_WALK` steps, or the next step may reach the end, or no step may follow.
pub open spec fn walk_ok(t: MarkovType, rows: Seq<Row>, dir: Direction, old: u64, curr: u64, steps: Seq<u64>) -> bool {
    let ext = seq![old, curr] + steps;
    let n = steps.len() as int;
    &&& steps.len() <= MAX_WALK
    &&& forall|k: int|
        0 <= k < steps.len() ==> step_ok(t, rows, dir, ext[k], ext[k + 1], ext[k + 2])
            && steps[k] != walk_end(dir)
    &&& walk_stopped(t, rows, dir, ext[n], ext[n + 1], steps.len())
}

/// Why a walk that has taken `taken` steps and stands at (`old`, `curr`) stops there.
pub open spec fn walk_stopped(t: MarkovType, rows: Seq<Row>, dir: Direction, old: u64, curr: u64, taken: nat) -> bool {
    taken == MAX_WALK || step_ok(t, rows, dir, old, curr, walk_end(dir)) || forall|x: u64|
        !step_ok(t, rows, dir, old, curr, x)
}

/// The records a pair query keeps are among those the single query of its current
/// identity keeps.
proof fn lemma_pair_within_single(rows: Seq<Row>, dir: Direction, old: u64, curr: u64)
    ensures
        answer(rows, pair_query(dir, old, curr)).len() > 0 ==> answer(
            rows,
            single_query(dir, curr),
        ).len() > 0,
    decreases rows.len(),
{
    if rows.len() > 0 {
        lemma_pair_within_single(rows.drop_last(), dir, old, curr);
    }
}

/// The text of a sequence of identities: tokens joined by single spaces, with no space
/// before a punctuation token.
pub open spec fn render(lex: Seq<Entry>, ids: Seq<u64>) -> Seq<char>
    decreases ids.len(),
{
    if ids.len() == 0 {
        seq![]
    } else {
        let before = render(lex, ids.drop_last());
        let w = lex[ids.last() - 1].1;
        if before.len() > 0 && !is_punct_token(w) {
            before + seq![' '] + w
        } else {
            before + w
        }
    }
}

/// `s` backwards.
pub open spec fn reversed(s: Seq<u64>) -> Seq<u64> {
    Seq::new(s.len(), |k: int| s[s.len() - 1 - k])
}

/// The identities of a walk in reading order.
pub open spec fn oriented(dir: Direction, ids: Seq<u64>) -> Seq<u64> {
    match dir {
        Direction::Forward => ids,
        Direction::Backward => reversed(ids),
    }
}

/// Whether `s` is the text of a plain generation: a forward walk from the start sentinel.
pub open spec fn generated(t: MarkovType, rows: Seq<Row>, lex: Seq<Entry>, s: Seq<char>) -> bool {
    exists|steps: Seq<u64>|
        walk_ok(t, rows, Direction::Forward, START_INDEX, START_INDEX, steps) && s == render(
            lex,
            steps,
        )
}

/// Whether `s` is the text of a walk that begins by emitting `curr` (nothing when `curr`
/// is where the walk ends) and goes on from (`old`, `curr`).
pub open spec fn anchored_text(
    t: MarkovType,
    rows: Seq<Row>,
    lex: Seq<Entry>,
    dir: Direction,
    old: u64,
    curr: u64,
    s: Seq<char>,
) -> bool {
    if curr == walk_end(dir) {
        s.len() == 0
    } else {
        exists|steps: Seq<u64>|
            walk_ok(t, rows, dir, old, curr, steps) && s == render(
                lex,
                oriented(dir, seq![curr] + steps),
            )
    }
}

/// Whether a text is empty or ends in a punctuation character.
pub open spec fn ends_open(a: Seq<char>) -> bool {
    a.len() == 0 || is_punct_char(a.last())
}

/// Whether a text is empty or begins with a punctuation character.
pub open spec fn begins_open(b: Seq<char>) -> bool {
    b.len() == 0 || is_punct_char(b[0])
}

/// Two halves joined by one space, unless a punctuation character or nothing stands on
/// either side of the seam.
pub open spec fn joined(a: Seq<char>, b: Seq<char>) -> Seq<char> {
    if !ends_open(a) && !begins_open(b) {
        a + seq![' '] + b
    } else {
        a + b
    }
}

/// Whether `s` is a reply anchored on identity `a` of role `role`.
pub open spec fn reply_text(
    t: MarkovType,
    rows: Seq<Row>,
    lex: Seq<Entry>,
    a: u64,
    role: Seq<char>,
    s: Seq<char>,
) -> bool {
    if role == "first"@ {
        anchored_text(t, rows, lex, Direction::Forward, START_INDEX, a, s)
    } else if role == "last"@ {
        anchored_text(t, rows, lex, Direction::Backward, END_INDEX, a, s)
    } else {
        exists|p: u64, s1: Seq<char>, s2: Seq<char>|
            offers(answer(rows, Query::Next(a)), p) && anchored_text(
                t,
                rows,
                lex,
                Direction::Backward,
                p,
                a,
                s1,
            ) && anchored_text(t, rows, lex, Direction::Forward, a, p, s2) && s == joined(s1, s2)
    }
}

/// Whether `s` is a reply anchored on an entry that matches a token of the seed.
pub open spec fn anchored_reply(
    t: MarkovType,
    rows: Seq<Row>,
    lex: Seq<Entry>,
    tokens: Seq<Seq<char>>,
    s: Seq<char>,
) -> bool {
    exists|ti: int, j: int|
        0 <= ti < tokens.len() && 0 <= j < folded_matches(lex, lower_of(tokens[ti])).len()
            && reply_text(
            t,
            rows,
            lex,
            folded_matches(lex, lower_of(tokens[ti]))[j].0,
            folded_matches(lex, lower_of(tokens[ti]))[j].1,
            s,
        )
}

/// Whether no token of the seed matches any entry.
pub open spec fn no_anchor(lex: Seq<Entry>, tokens: Seq<Seq<char>>) -> bool {
    forall|ti: int|
        0 <= ti < tokens.len() ==> #[trigger] folded_matches(lex, lower_of(tokens[ti])).len() == 0
}

/// Whether every token of the seed matches some entry, and every match whose role is
/// neither `first` nor `last` has a successor to pivot on.
pub open spec fn all_anchored(rows: Seq<Row>, lex: Seq<Entry>, tokens: Seq<Seq<char>>) -> bool {
    forall|ti: int|
        0 <= ti < tokens.len() ==> {
            let m = #[trigger] folded_matches(lex, lower_of(tokens[ti]));
            &&& m.len() > 0
            &&& forall|j: int|
                0 <= j < m.len() && m[j].1 != "first"@ && m[j].1 != "last"@ ==> answer(
                    rows,
                    Query::Next(m[j].0),
                ).len() > 0
        }
}

proof fn lemma_folded_ids(lex: Seq<Entry>, f: Seq<char>, j: int)
    requires
        0 <= j < folded_matches(lex, f).len(),
        lex.len() <= u64::MAX,
    ensures
        1 <= folded_matches(lex, f)[j].0 <= lex.len(),
    decreases lex.len(),
{
    let s = folded_matches(lex.drop_last(), f);
    if j < s.len() {
        lemma_folded_ids(lex.drop_last(), f, j);
    }
}

/// Joins two halves of a reply; see `joined`.
pub fn join_halves(first: String, second: String) -> (r: String)
    ensures
        r@ == joined(first@, second@),
{
    let n1 = first.as_str().unicode_len();
    let n2 = second.as_str().unicode_len();
    let open1 = if n1 == 0 {
        true
    } else {
        split::is_punct(first.as_str().get_char(n1 - 1))
    };
    let open2 = if n2 == 0 {
        true
    } else {
        split::is_punct(second.as_str().get_char(0))
    };
    let mut out = first;
    if !open1 && !open2 {
        out.append(" ");
        proof {
            reveal_strlit(" ");
        }
    }
    out.append(second.as_str());
    out
}

proof fn lemma_sentinels_differ()
    ensures
        start_entry() != end_entry(),
{
    reveal_strlit("start");
    reveal_strlit("end");
    assert(start_entry().0.len() != end_entry().0.len());
}

pub open spec fn sentinels_ok(lex: Seq<Entry>) -> bool {
    lex.len() == 0 || (lex[0] == end_entry() && (lex.len() == 1 || lex[1] == start_entry()))
}

/// Decides one step of a walk from the candidates drawn; see `next_choice`.
pub fn choose_next(markov_type: MarkovType, pair_pick: Option<(u64, u64)>, single_pick: Option<
    (u64, u64),
>) -> (r: Option<u64>)
    ensures
        r == next_choice(markov_type, pair_pick, single_pick),
{
    match markov_type {
        MarkovType::Single(_) => match single_pick {
            Some(c) => Some(c.0),
            None => None,
        },
        MarkovType::Double(_) => match pair_pick {
            Some(c) => Some(c.0),
            None => None,
        },
        MarkovType::Hybrid(threshold) => match pair_pick {
            None => None,
            Some(c) => if c.1 < threshold {
                match single_pick {
                    Some(s) => Some(s.0),
                    None => None,
                }
            } else {
                Some(c.0)
            },
        },
    }
}

/// A step of the hybrid mode never keeps a pair candidate whose weight is below the
/// threshold: the step then goes by the single candidate.
pub proof fn lemma_hybrid_backoff(threshold: u64, pair_pick: (u64, u64), single_pick: Option<(u64, u64)>)
    requires
        pair_pick.1 < threshold,
    ensures
        next_choice(MarkovType::Hybrid(threshold), Some(pair_pick), single_pick) == match single_pick {
            Some(s) => Some(s.0),
            None => None::<u64>,
        },
{
}

pub struct MarkovBuilder {
    database: MemoryDB,
    markov_type: MarkovType,
    markov_chance: u64,
    reply_mode: ReplyMode,
}

/// A chain model over a store whose first two entries are the end and start sentinels.
pub struct Markov {
    database: MemoryDB,
    markov_type: MarkovType,
    markov_chance: u64,
    reply_mode: ReplyMode,
}

impl MarkovBuilder {
    pub closed spec fn database(&self) -> MemoryDB {
        self.database
    }

    pub closed spec fn config(&self) -> (MarkovType, u64, ReplyMode) {
        (self.markov_type, self.markov_chance, self.reply_mode)
    }

    pub fn new(database: MemoryDB) -> (r: MarkovBuilder)
        ensures
            r.database() == database,
            r.config() == (MarkovType::Hybrid(DEFAULT_HYBRID_THRESHOLD), DEFAULT_CHANCE, ReplyMode::Reply),
    {
        MarkovBuilder {
            database,
            markov_type: MarkovType::default(),
            markov_chance: DEFAULT_CHANCE,
            reply_mode: ReplyMode::default(),
        }
    }

    pub fn markov_type(self, markov_type: MarkovType) -> (r: MarkovBuilder)
        ensures
            r.database() == self.database(),
            r.config() == (markov_type, self.config().1, self.config().2),
    {
        MarkovBuilder { markov_type, ..self }
    }

    pub fn markov_chance(self, markov_chance: u64) -> (r: MarkovBuilder)
        ensures
            r.database() == self.database(),
            r.config() == (self.config().0, markov_chance, self.config().2),
    {
        MarkovBuilder { markov_chance, ..self }
    }

    pub fn reply_mode(self, reply_mode: ReplyMode) -> (r: MarkovBuilder)
        ensures
            r.database() == self.database(),
            r.config() == (self.config().0, self.config().1, reply_mode),
    {
        MarkovBuilder { reply_mode, ..self }
    }

    /// Adds the end and then the start sentinel, unless on record, and checks that they
    /// have identities 1 and 2.
    pub fn build(self) -> (r: Result<Markov, ChainError>)
        requires
            self.database().wf(),
        ensures
            r is Ok <==> sentinels_ok(self.database().lexicon()),
            r matches Ok(m) ==> {
                &&& m.wf()
                &&& m.lexicon() == lexicon_add(
                    lexicon_add(self.database().lexicon(), end_entry()),
                    start_entry(),
                )
                &&& m.rows() == self.database().rows()
                &&& m.config() == self.config()
            },
            r matches Err(e) ==> e == ChainError::Corrupt,
            self.database().lexicon().len() == 0 ==> (r matches Ok(m) && m.lexicon() == seq![
                end_entry(),
                start_entry(),
            ]),
    {
        let mut database = self.database;
        let ghost lex0 = database.lexicon();
        let end = database.add_word(("end", ""));
        let ghost lex1 = database.lexicon();
        if !(end matches Ok(1)) {
            proof {
                if lex0.len() > 0 {
                    assert(lex0[0] != end_entry()) by {
                        if lex0[0] == end_entry() {
                            assert(lex0.contains(end_entry()));
                            let k = choose|i: int| 0 <= i < lex0.len() && lex0[i] == end_entry();
                            assert(k == 0);
                        }
                    }
                } else {
                    assert(lex1 == seq![end_entry()]);
                }
            }
            return Err(ChainError::Corrupt);
        }
        assert(lex1[0] == end_entry());
        let start = database.add_word(("start", ""));
        let ghost lex2 = database.lexicon();
        if !(start matches Ok(2)) {
            proof {
                assert(lex0.len() == 0 ==> lex1.len() == 1);
                assert(lex0.len() == 1 ==> lex1 == lex0);
                if lex1.len() > 1 && lex1[1] == start_entry() {
                    assert(lex1.contains(start_entry()));
                    let k = choose|i: int| 0 <= i < lex1.len() && lex1[i] == start_entry();
                    assert(k == 1);
                }
                if lex1.len() == 1 {
                    assert(!lex1.contains(start_entry())) by {
                        if lex1.contains(start_entry()) {
                            let k = choose|i: int| 0 <= i < lex1.len() && lex1[i] == start_entry();
                            assert(k == 0);
                            lemma_sentinels_differ();
                        }
                    }
                }
            }
            return Err(ChainError::Corrupt);
        }
        proof {
            if lex0.len() > 0 {
                assert(lex0.contains(end_entry()));
                assert(lex1 == lex0);
                assert(lex0[0] == end_entry());
            }
            if lex1.len() == 1 {
                assert(lex2 == lex1.push(start_entry()));
            }
            if lex0.len() == 0 {
                assert(lex2 =~= seq![end_entry(), start_entry()]);
            }
        }
        Ok(
            Markov {
                database,
                markov_type: self.markov_type,
                markov_chance: self.markov_chance,
                reply_mode: self.reply_mode,
            },
        )
    }
}

impl Markov {
    pub closed spec fn database(&self) -> MemoryDB {
        self.database
    }

    pub open spec fn lexicon(&self) -> Seq<Entry> {
        self.database().lexicon()
    }

    pub open spec fn rows(&self) -> Seq<Row> {
        self.database().rows()
    }

    pub closed spec fn config(&self) -> (MarkovType, u64, ReplyMode) {
        (self.markov_type, self.markov_chance, self.reply_mode)
    }

    pub open spec fn wf(&self) -> bool {
        &&& self.database().wf()
        &&& self.lexicon().len() >= 2
        &&& self.lexicon()[0] == end_entry()
        &&& self.lexicon()[1] == start_entry()
    }

    /// A model with the default configuration over `database`.
    pub fn new(database: MemoryDB) -> (r: Result<Markov, ChainError>)
        requires
            database.wf(),
        ensures
            r is Ok <==> sentinels_ok(database.lexicon()),
            r matches Ok(m) ==> {
                &&& m.wf()
                &&& m.lexicon() == lexicon_add(lexicon_add(database.lexicon(), end_entry()), start_entry())
                &&& m.rows() == database.rows()
                &&& m.config() == (MarkovType::Hybrid(DEFAULT_HYBRID_THRESHOLD), DEFAULT_CHANCE, ReplyMode::Reply)
            },
            r matches Err(e) ==> e == ChainError::Corrupt,
            database.lexicon().len() == 0 ==> (r matches Ok(m) && m.lexicon() == seq![
                end_entry(),
                start_entry(),
            ]),
    {
        MarkovBuilder::new(database).build()
    }

    pub fn builder(database: MemoryDB) -> (r: MarkovBuilder)
        ensures
            r.database() == database,
            r.config() == (MarkovType::Hybrid(DEFAULT_HYBRID_THRESHOLD), DEFAULT_CHANCE, ReplyMode::Reply),
    {
        MarkovBuilder::new(database)
    }

    /// The store the model reads and writes.
    pub fn get_database(&self) -> (r: &MemoryDB)
        ensures
            *r == self.database(),
    {
        &self.database
    }

    /// Gives the store back, to be kept or persisted.
    pub fn into_database(self) -> (r: MemoryDB)
        ensures
            r == self.database(),
    {
        self.database
    }

    pub fn get_markov_type(&self) -> (r: MarkovType)
        ensures
            r == self.config().0,
    {
        self.markov_type
    }

    pub fn get_markov_chance(&self) -> (r: u64)
        ensures
            r == self.config().1,
    {
        self.markov_chance
    }

    pub fn get_reply_mode(&self) -> (r: ReplyMode)
        ensures
            r == self.config().2,
    {
        self.reply_mode
    }

    /// A draw that succeeds one time in `markov_chance`, and never when that is zero.
    pub fn chance(&self) -> (r: bool)
        ensures
            self.config().1 == 0 ==> !r,
            self.config().1 == 1 ==> r,
    {
        if self.markov_chance == 0 {
            return false;
        }
        random_below(self.markov_chance) == 0
    }

    /// One step of a walk from `curr`, whose neighbour on the side already walked is
    /// `old`; `None` when the walk cannot go on.
    fn step(&self, dir: Direction, old: u64, curr: u64) -> (r: Option<u64>)
        requires
            self.wf(),
        ensures
            r matches Some(n) ==> step_ok(self.config().0, self.rows(), dir, old, curr, n)
                && valid_id(self.lexicon(), n),
            r is None ==> forall|x: u64| !step_ok(self.config().0, self.rows(), dir, old, curr, x),
            match self.config().0 {
                MarkovType::Single(_) => r is None <==> answer(self.rows(), single_query(dir, curr)).len() == 0,
                MarkovType::Double(_) => r is None <==> answer(self.rows(), pair_query(dir, old, curr)).len() == 0,
                MarkovType::Hybrid(_) => {
                    &&& answer(self.rows(), pair_query(dir, old, curr)).len() == 0 ==> r is None
                    &&& answer(self.rows(), pair_query(dir, old, curr)).len() > 0 && answer(
                        self.rows(),
                        single_query(dir, curr),
                    ).len() > 0 ==> r is Some
                },
            },
    {
        let pq = match dir {
            Direction::Forward => Query::NextAfter(old, curr),
            Direction::Backward => Query::PrevBefore(curr, old),
        };
        let sq = match dir {
            Direction::Forward => Query::Next(curr),
            Direction::Backward => Query::Prev(curr),
        };
        let (pair_pick, single_pick) = match self.markov_type {
            MarkovType::Single(_) => {
                let cands = self.database.occurrences(sq);
                (None, choose_weighted(&cands))
            },
            MarkovType::Double(_) => {
                let cands = self.database.occurrences(pq);
                (choose_weighted(&cands), None)
            },
            MarkovType::Hybrid(threshold) => {
                let cands = self.database.occurrences(pq);
                let p = choose_weighted(&cands);
                let s = match p {
                    Some(c) => if c.1 < threshold {
                        let singles = self.database.occurrences(sq);
                        choose_weighted(&singles)
                    } else {
                        None
                    },
                    None => None,
                };
                (p, s)
            },
        };
        proof {
            reveal(step_ok);
            lemma_pair_within_single(self.rows(), dir, old, curr);
            let pair = answer(self.rows(), pq);
            let single = answer(self.rows(), sq);
            if let Some(c) = pair_pick {
                lemma_candidate_in_rows(self.rows(), pq, c);
                assert(offers(pair, c.0));
            }
            if let Some(c) = single_pick {
                lemma_candidate_in_rows(self.rows(), sq, c);
                assert(offers(single, c.0));
            }
            if pair.len() > 0 {
                assert(pair[0].1 >= 1) by { lemma_candidate_in_rows(self.rows(), pq, pair[0]); }
            }
            if single.len() > 0 {
                assert(single[0].1 >= 1) by { lemma_candidate_in_rows(self.rows(), sq, single[0]); }
            }
        }
        choose_next(self.markov_type, pair_pick, single_pick)
    }

    /// Walks on from `curr`, whose neighbour on the side already walked is `old`, until
    /// the walk's end sentinel, a dead end, or `MAX_WALK` steps; returns the identities
    /// reached, the end sentinel left out.
    fn walk(&self, dir: Direction, old: u64, curr: u64) -> (r: Vec<u64>)
        requires
            self.wf(),
        ensures
            walk_ok(self.config().0, self.rows(), dir, old, curr, r@),
            forall|k: int| 0 <= k < r@.len() ==> valid_id(self.lexicon(), #[trigger] r@[k]),
    {
        let end = match dir {
            Direction::Forward => END_INDEX,
            Direction::Backward => START_INDEX,
        };
        let ghost t = self.config().0;
        let ghost rows = self.rows();
        let mut path: Vec<u64> = Vec::new();
        let mut prev = old;
        let mut here = curr;
        let mut taken: u64 = 0;
        let ghost mut ext = seq![old, curr];
        while taken < MAX_WALK
            invariant
                self.wf(),
                t == self.config().0,
                rows == self.rows(),
                end == walk_end(dir),
                path@.len() == taken,
                taken <= MAX_WALK,
                ext.len() == path@.len() + 2,
                ext[0] == old,
                ext[1] == curr,
                forall|k: int| 0 <= k < path@.len() ==> ext[k + 2] == path@[k],
                prev == ext[ext.len() - 2],
                here == ext[ext.len() - 1],
                forall|k: int|
                    0 <= k < path@.len() ==> #[trigger] step_ok(t, rows, dir, ext[k], ext[k + 1], ext[k + 2]),
                forall|k: int|
                    0 <= k < path@.len() ==> path@[k] != end && valid_id(self.lexicon(), #[trigger] path@[k]),
            ensures
                path@.len() <= MAX_WALK,
                ext.len() == path@.len() + 2,
                ext[0] == old,
                ext[1] == curr,
                forall|k: int| 0 <= k < path@.len() ==> ext[k + 2] == path@[k],
                prev == ext[ext.len() - 2],
                here == ext[ext.len() - 1],
                forall|k: int|
                    0 <= k < path@.len() ==> #[trigger] step_ok(t, rows, dir, ext[k], ext[k + 1], ext[k + 2]),
                forall|k: int|
                    0 <= k < path@.len() ==> path@[k] != end && valid_id(self.lexicon(), #[trigger] path@[k]),
                walk_stopped(t, rows, dir, prev, here, path@.len()),
            decreases MAX_WALK - taken,
        {
            match self.step(dir, prev, here) {
                None => break,
                Some(n) => {
                    if n == end {
                        break;
                    }
                    proof {
                        ext = ext.push(n);
                    }
                    path.push(n);
                    prev = here;
                    here = n;
                },
            }
            taken += 1;
        }
        assert(ext =~= seq![old, curr] + path@);
        assert(ext[path@.len() as int] == prev);
        path
    }

    /// The text of an identity that the lexicon holds.
    fn text_of(&self, index: u64) -> (r: String)
        requires
            self.wf(),
            valid_id(self.lexicon(), index),
        ensures
            r@ == self.lexicon()[index - 1].1,
    {
        match self.database.get_word(index) {
            Ok(w) => w,
            Err(_) => {
                assert(false);
                String::new()
            },
        }
    }

    /// The text of a sequence of identities; see `render`.
    fn render_ids(&self, ids: &Vec<u64>) -> (r: String)
        requires
            self.wf(),
            forall|k: int| 0 <= k < ids@.len() ==> valid_id(self.lexicon(), #[trigger] ids@[k]),
        ensures
            r@ == render(self.lexicon(), ids@),
    {
        let mut sentence = String::new();
        let mut i: usize = 0;
        assert(ids@.take(0) =~= Seq::<u64>::empty());
        while i < ids.len()
            invariant
                self.wf(),
                i <= ids@.len(),
                forall|k: int| 0 <= k < ids@.len() ==> valid_id(self.lexicon(), #[trigger] ids@[k]),
                sentence@ == render(self.lexicon(), ids@.take(i as int)),
            decreases ids@.len() - i,
        {
            let word = self.text_of(ids[i]);
            let punct = is_punctuation_token(word.as_str());
            let ghost before = sentence@;
            assert(ids@.take(i + 1).drop_last() =~= ids@.take(i as int));
            assert(ids@.take(i + 1).last() == ids@[i as int]);
            if !sentence.as_str().is_empty() && !punct {
                sentence.append(" ");
                proof {
                    reveal_strlit(" ");
                }
            }
            sentence.append(word.as_str());
            i += 1;
        }
        assert(ids@.take(ids@.len() as int) =~= ids@);
        sentence
    }

    /// The text of a walk that emits `curr` first (nothing when `curr` is where the walk
    /// ends) and goes on from (`old`, `curr`), in reading order.
    fn anchored_walk(&self, dir: Direction, old: u64, curr: u64) -> (r: String)
        requires
            self.wf(),
            valid_id(self.lexicon(), curr),
        ensures
            anchored_text(self.config().0, self.rows(), self.lexicon(), dir, old, curr, r@),
    {
        let end = match dir {
            Direction::Forward => END_INDEX,
            Direction::Backward => START_INDEX,
        };
        if curr == end {
            return String::new();
        }
        let steps = self.walk(dir, old, curr);
        let mut ids: Vec<u64> = Vec::new();
        ids.push(curr);
        let mut i: usize = 0;
        while i < steps.len()
            invariant
                self.wf(),
                valid_id(self.lexicon(), curr),
                i <= steps@.len(),
                ids@ == seq![curr] + steps@.take(i as int),
                forall|k: int| 0 <= k < steps@.len() ==> valid_id(self.lexicon(), #[trigger] steps@[k]),
            decreases steps@.len() - i,
        {
            ids.push(steps[i]);
            assert(seq![curr] + steps@.take(i + 1) =~= (seq![curr] + steps@.take(i as int)).push(
                steps@[i as int],
            ));
            i += 1;
        }
        assert(steps@.take(steps@.len() as int) =~= steps@);
        let ghost full = seq![curr] + steps@;
        assert(forall|k: int| 0 <= k < full.len() ==> valid_id(self.lexicon(), #[trigger] full[k])) by {
            assert forall|k: int| 0 <= k < full.len() implies valid_id(self.lexicon(), #[trigger] full[k]) by {
                if k > 0 {
                    assert(full[k] == steps@[k - 1]);
                }
            }
        }
        let text = match dir {
            Direction::Forward => self.render_ids(&ids),
            Direction::Backward => {
                let mut back: Vec<u64> = Vec::new();
                let n = ids.len();
                let mut j: usize = 0;
                while j < n
                    invariant
                        n == ids@.len(),
                        j <= n,
                        back@.len() == j,
                        forall|k: int| 0 <= k < j ==> back@[k] == ids@[n - 1 - k],
                    decreases n - j,
                {
                    back.push(ids[n - 1 - j]);
                    j += 1;
                }
                assert(back@ =~= reversed(ids@));
                self.render_ids(&back)
            },
        };
        assert(anchored_text(self.config().0, self.rows(), self.lexicon(), dir, old, curr, text@))
            by {
            assert(walk_ok(self.config().0, self.rows(), dir, old, curr, steps@));
        }
        text
    }

    /// A sentence from a forward walk that starts at the start sentinel and runs until the
    /// end sentinel, a dead end, or `MAX_WALK` tokens.
    pub fn generate(&self) -> (r: Result<String, ChainError>)
        requires
            self.wf(),
        ensures
            r matches Ok(s) && generated(self.config().0, self.rows(), self.lexicon(), s@),
    {
        let steps = self.walk(Direction::Forward, START_INDEX, START_INDEX);
        let text = self.render_ids(&steps);
        assert(walk_ok(self.config().0, self.rows(), Direction::Forward, START_INDEX, START_INDEX, steps@));
        Ok(text)
    }


    /// A reply to `line`. `Off` gives an empty reply and `Random` a plain generation.
    /// `Reply` picks a token of `line` and an entry matching it case-insensitively, both at
    /// random, and walks from that anchor: forward only for a `first` entry, backward
    /// only for a `last` one, and otherwise both ways around a successor drawn as pivot.
    /// `ReplyUnique` does the same, but answers a reply equal to `line` with a plain
    /// generation. Each walk runs until its sentinel, a dead end, or `MAX_WALK` tokens.
    pub fn generate_reply(&self, line: &str) -> (r: Result<String, ChainError>)
        requires
            self.wf(),
            self.config().2 == ReplyMode::Reply || self.config().2 == ReplyMode::ReplyUnique
                ==> tokens_of(line@).len() > 0,
        ensures
            self.config().2 == ReplyMode::Off ==> (r matches Ok(s) && s@.len() == 0),
            self.config().2 == ReplyMode::Random ==> (r matches Ok(s) && generated(
                self.config().0,
                self.rows(),
                self.lexicon(),
                s@,
            )),
            self.config().2 == ReplyMode::Reply ==> (r matches Ok(s) ==> anchored_reply(
                self.config().0,
                self.rows(),
                self.lexicon(),
                tokens_of(line@),
                s@,
            )),
            self.config().2 == ReplyMode::ReplyUnique ==> (r matches Ok(s) ==> (anchored_reply(
                self.config().0,
                self.rows(),
                self.lexicon(),
                tokens_of(line@),
                s@,
            ) && s@ != line@) || (anchored_reply(
                self.config().0,
                self.rows(),
                self.lexicon(),
                tokens_of(line@),
                line@,
            ) && generated(self.config().0, self.rows(), self.lexicon(), s@))),
            (self.config().2 == ReplyMode::Reply || self.config().2 == ReplyMode::ReplyUnique)
                && no_anchor(self.lexicon(), tokens_of(line@)) ==> r == Err::<String, ChainError>(
                ChainError::NoAnchorMatch,
            ),
            (self.config().2 == ReplyMode::Reply || self.config().2 == ReplyMode::ReplyUnique)
                && all_anchored(self.rows(), self.lexicon(), tokens_of(line@)) ==> r is Ok,
            r matches Err(e) ==> (e == ChainError::NoAnchorMatch || e == ChainError::DeadEnd)
                && !all_anchored(self.rows(), self.lexicon(), tokens_of(line@)),
    {
        match self.reply_mode {
            ReplyMode::Off => {
                return Ok(String::new());
            },
            ReplyMode::Random => {
                return self.generate();
            },
            _ => {},
        }
        let ghost t = self.config().0;
        let ghost lex = self.lexicon();
        let ghost rows = self.rows();
        let tokens = split_sentence(line);
        let ghost toks = tokens_of(line@);
        let ti = random_below(tokens.len() as u64) as usize;
        assert(tokens@[ti as int]@ == toks[ti as int]);
        let matches = self.database.get_case_insensitive(tokens[ti].as_str());
        let ghost m = folded_matches(lex, lower_of(toks[ti as int]));
        assert(matches@.len() == m.len());
        if matches.len() == 0 {
            return Err(ChainError::NoAnchorMatch);
        }
        let j = random_below(matches.len() as u64) as usize;
        let index = matches[j].0;
        let keyword = &matches[j].1;
        assert((index, keyword@) == m[j as int]);
        proof {
            lemma_folded_ids(lex, lower_of(toks[ti as int]), j as int);
        }
        let sentence = if *keyword == String::from_str("first") {
            self.anchored_walk(Direction::Forward, START_INDEX, index)
        } else if *keyword == String::from_str("last") {
            self.anchored_walk(Direction::Backward, END_INDEX, index)
        } else {
            let cands = self.database.occurrences(Query::Next(index));
            match choose_weighted(&cands) {
                None => {
                    proof {
                        if cands@.len() > 0 {
                            assert(cands@[0].1 >= 1);
                        }
                        assert(m[j as int].1 != "first"@ && m[j as int].1 != "last"@);
                        assert(answer(rows, Query::Next(m[j as int].0)).len() == 0);
                        if all_anchored(rows, lex, toks) {
                            assert(folded_matches(lex, lower_of(toks[ti as int])).len() > 0);
                        }
                    }
                    return Err(ChainError::DeadEnd);
                },
                Some(c) => {
                    let second = c.0;
                    let ghost k = choose|k: int| 0 <= k < cands@.len() && cands@[k] == c;
                    assert(valid_id(lex, cands@[k].0));
                    assert(offers(answer(rows, Query::Next(index)), second));
                    let first_half = self.anchored_walk(Direction::Backward, second, index);
                    let second_half = self.anchored_walk(Direction::Forward, index, second);
                    let joined_text = join_halves(first_half, second_half);
                    assert(reply_text(t, rows, lex, index, keyword@, joined_text@));
                    joined_text
                },
            }
        };
        assert(reply_text(t, rows, lex, m[j as int].0, m[j as int].1, sentence@));
        assert(anchored_reply(t, rows, lex, toks, sentence@));
        match self.reply_mode {
            ReplyMode::ReplyUnique => {
                if String::from_str(line) == sentence {
                    self.generate()
                } else {
                    Ok(sentence)
                }
            },
            _ => Ok(sentence),
        }
    }


    /// Ingests one triple: adds its three entries if absent, then increments its weight.
    fn append_word(&mut self, prev: (&str, &str), curr: (&str, &str), next: (&str, &str)) -> (r:
        Result<(), ChainError>)
        requires
            old(self).wf(),
        ensures
            final(self).wf(),
            final(self).config() == old(self).config(),
            r is Ok ==> (final(self).lexicon(), final(self).rows()) == ingest_one(
                old(self).lexicon(),
                old(self).rows(),
                ((prev.0@, prev.1@), (curr.0@, curr.1@), (next.0@, next.1@)),
            ) && sum_counts(final(self).rows()) == sum_counts(old(self).rows()) + 1,
            r is Ok ==> final(self).lexicon().len() <= old(self).lexicon().len() + 3,
            old(self).lexicon().len() + 3 <= u64::MAX && sum_counts(old(self).rows()) < u64::MAX
                ==> r is Ok,
            r matches Err(e) ==> e == ChainError::Full,
            r is Err ==> final(self).rows() == old(self).rows() && entries_partly_added(
                old(self).lexicon(),
                ((prev.0@, prev.1@), (curr.0@, curr.1@), (next.0@, next.1@)),
                final(self).lexicon(),
            ),
    {
        let ghost a: Entry = (prev.0@, prev.1@);
        let ghost b: Entry = (curr.0@, curr.1@);
        let ghost c: Entry = (next.0@, next.1@);
        let ghost l0 = self.lexicon();
        let i1 = match self.database.add_word(prev) {
            Ok(i) => i,
            Err(e) => {
                return Err(e);
            },
        };
        let ghost l1 = self.lexicon();
        let i2 = match self.database.add_word(curr) {
            Ok(i) => i,
            Err(e) => {
                return Err(e);
            },
        };
        let ghost l2 = self.lexicon();
        let i3 = match self.database.add_word(next) {
            Ok(i) => i,
            Err(e) => {
                return Err(e);
            },
        };
        let ghost l3 = self.lexicon();
        proof {
            assert(l1.contains(a)) by {
                assert(l1[i1 - 1] == a);
            }
            lemma_id_stable(l1, b, a);
            assert(l2.contains(b)) by {
                assert(l2[i2 - 1] == b);
            }
            lemma_id_stable(l2, c, a);
            lemma_id_stable(l2, c, b);
            assert(ids_of(l3, (a, b, c)) == (i1, i2, i3));
            assert(l3.len() >= l2.len() >= l1.len());
        }
        match self.database.increment(i1, i2, i3) {
            Ok(()) => Ok(()),
            Err(e) => {
                assert(e == ChainError::Full);
                Err(e)
            },
        }
    }

    /// Ingests a line: every triple of its framed tokens, in order.
    pub fn append_line(&mut self, line: &str) -> (r: Result<(), ChainError>)
        requires
            old(self).wf(),
            tokens_of(line@).len() > 0,
        ensures
            final(self).wf(),
            final(self).config() == old(self).config(),
            r is Ok ==> (final(self).lexicon(), final(self).rows()) == ingest(
                old(self).lexicon(),
                old(self).rows(),
                line_triples(tokens_of(line@)),
            ),
            old(self).lexicon().len() + 3 * (tokens_of(line@).len() + 1) <= u64::MAX && sum_counts(
                old(self).rows(),
            ) + tokens_of(line@).len() + 1 <= u64::MAX ==> r is Ok && final(self).lexicon().len()
                <= old(self).lexicon().len() + 3 * (tokens_of(line@).len() + 1) && sum_counts(
                final(self).rows(),
            ) == sum_counts(old(self).rows()) + tokens_of(line@).len() + 1,
            r matches Err(e) ==> e == ChainError::Full,
            r is Err ==> failed_within(
                old(self).lexicon(),
                old(self).rows(),
                line_triples(tokens_of(line@)),
                final(self).lexicon(),
                final(self).rows(),
            ),
    {
        let tokens = split_sentence(line);
        let ghost toks = tokens_of(line@);
        let ghost trs = line_triples(toks);
        let ghost l0 = self.lexicon();
        let ghost r0 = self.rows();
        let ghost owed = l0.len() + 3 * (toks.len() + 1) <= u64::MAX && sum_counts(r0) + toks.len()
            + 1 <= u64::MAX;
        let n = tokens.len();
        let mut k: usize = 0;
        assert(trs.take(0) =~= Seq::<Triple>::empty());
        loop
            invariant_except_break
                self.wf(),
                self.config() == old(self).config(),
                strings_view(tokens@) == toks,
                toks == tokens_of(line@),
                n == toks.len(),
                trs == line_triples(toks),
                l0 == old(self).lexicon(),
                r0 == old(self).rows(),
                k <= n,
                (self.lexicon(), self.rows()) == ingest(l0, r0, trs.take(k as int)),
                owed ==> self.lexicon().len() <= l0.len() + 3 * k && sum_counts(self.rows())
                    == sum_counts(r0) + k,
                owed == (l0.len() + 3 * (toks.len() + 1) <= u64::MAX && sum_counts(r0) + toks.len()
                    + 1 <= u64::MAX),
            ensures
                self.wf(),
                self.config() == old(self).config(),
                (self.lexicon(), self.rows()) == ingest(l0, r0, trs),
                owed ==> self.lexicon().len() <= l0.len() + 3 * (n + 1) && sum_counts(self.rows())
                    == sum_counts(r0) + n + 1,
            decreases n - k,
        {
            let a = node_at(&tokens, k, 0);
            let b = node_at(&tokens, k, 1);
            let c = node_at(&tokens, k, 2);
            assert(trs.take(k + 1).drop_last() =~= trs.take(k as int));
            assert(trs.take(k + 1).last() == trs[k as int]);
            proof {
                if owed {
                    assert(self.lexicon().len() + 3 <= u64::MAX);
                    assert(sum_counts(self.rows()) < u64::MAX);
                }
            }
            match self.append_word(a, b, c) {
                Ok(()) => {},
                Err(e) => {
                    assert(failed_within(l0, r0, trs, self.lexicon(), self.rows())) by {
                        assert(0 <= k < trs.len());
                    }
                    return Err(e);
                },
            }
            if k == n {
                assert(trs.take(k + 1) =~= trs);
                break;
            }
            k += 1;
        }
        Ok(())
    }


    /// Ingests a corpus line by line, blank lines left out; stops at the first failure,
    /// keeping the lines ingested before it.
    pub fn append_line_batch(&mut self, corpus: &str) -> (r: Result<(), ChainError>)
        requires
            old(self).wf(),
        ensures
            final(self).wf(),
            final(self).config() == old(self).config(),
            r is Ok ==> (final(self).lexicon(), final(self).rows()) == ingest_lines(
                old(self).lexicon(),
                old(self).rows(),
                corpus_lines_of(corpus@),
            ),
            old(self).lexicon().len() + 3 * lines_cost(corpus_lines_of(corpus@)) <= u64::MAX
                && sum_counts(old(self).rows()) + lines_cost(corpus_lines_of(corpus@)) <= u64::MAX
                ==> r is Ok,
            r matches Err(e) ==> e == ChainError::Full,
            r is Err ==> exists|i: int|
                0 <= i < corpus_lines_of(corpus@).len() && failed_within(
                    #[trigger] ingest_lines(
                        old(self).lexicon(),
                        old(self).rows(),
                        corpus_lines_of(corpus@).take(i),
                    ).0,
                    ingest_lines(old(self).lexicon(), old(self).rows(), corpus_lines_of(corpus@).take(i)).1,
                    line_triples(tokens_of(corpus_lines_of(corpus@)[i])),
                    final(self).lexicon(),
                    final(self).rows(),
                ),
    {
        let lines = corpus_lines(corpus);
        let ghost ls = corpus_lines_of(corpus@);
        let ghost l0 = self.lexicon();
        let ghost r0 = self.rows();
        let ghost owed = l0.len() + 3 * lines_cost(ls) <= u64::MAX && sum_counts(r0) + lines_cost(ls)
            <= u64::MAX;
        let mut i: usize = 0;
        assert(ls.take(0) =~= Seq::<Seq<char>>::empty());
        while i < lines.len()
            invariant
                self.wf(),
                self.config() == old(self).config(),
                strings_view(lines@) == ls,
                i <= lines@.len(),
                (self.lexicon(), self.rows()) == ingest_lines(l0, r0, ls.take(i as int)),
                l0 == old(self).lexicon(),
                r0 == old(self).rows(),
                ls == corpus_lines_of(corpus@),
                owed == (l0.len() + 3 * lines_cost(ls) <= u64::MAX && sum_counts(r0) + lines_cost(ls)
                    <= u64::MAX),
                owed ==> self.lexicon().len() <= l0.len() + 3 * lines_cost(ls.take(i as int))
                    && sum_counts(self.rows()) == sum_counts(r0) + lines_cost(ls.take(i as int)),
            decreases lines@.len() - i,
        {
            proof {
                lemma_lines_cost_prefix(ls, i + 1);
                assert(ls.take(i + 1).drop_last() =~= ls.take(i as int));
            }
            assert(ls.take(i + 1).drop_last() =~= ls.take(i as int));
            assert(ls.take(i + 1).last() == ls[i as int]);
            assert(lines@[i as int]@ == ls[i as int]);
            proof {
                lemma_corpus_line_has_tokens(corpus@, i as int);
            }
            let ghost p = (self.lexicon(), self.rows());
            match self.append_line(lines[i].as_str()) {
                Ok(()) => {},
                Err(e) => {
                    assert(ingest_lines(l0, r0, ls.take(i as int)) == p);
                    assert(failed_within(
                        ingest_lines(l0, r0, ls.take(i as int)).0,
                        ingest_lines(l0, r0, ls.take(i as int)).1,
                        line_triples(tokens_of(ls[i as int])),
                        self.lexicon(),
                        self.rows(),
                    ));
                    return Err(e);
                },
            }
            i += 1;
        }
        assert(ls.take(lines@.len() as int) =~= ls);
        Ok(())
    }

}

} // verus!
