use vstd::prelude::*;
use vstd::string::*;

verus! {

/// The error of `char`'s `FromStr`: the string was not exactly one character.
#[verifier::external_type_specification]
#[verifier::external_body]
pub struct ExParseCharError(std::char::ParseCharError);

/// The characters that a word sheds as a token of their own.
pub open spec fn is_punct_char(c: char) -> bool {
    c == '.' || c == ',' || c == '?' || c == '!' || c == ';' || c == ':'
}

/// The Unicode `White_Space` property, on which `str::split_whitespace` splits.
pub open spec fn is_space_char(c: char) -> bool {
    let u = c as u32;
    (0x9 <= u && u <= 0xd) || u == 0x20 || u == 0x85 || u == 0xa0 || u == 0x1680 || (0x2000 <= u
        && u <= 0x200a) || u == 0x2028 || u == 0x2029 || u == 0x202f || u == 0x205f || u == 0x3000
}

/// A word of two or more characters sheds its last one when that one is punctuation,
/// differs from the one before it, and the one before it is neither `!` nor `?`.
pub open spec fn sheds_last(w: Seq<char>) -> bool {
    &&& w.len() >= 2
    &&& w.last() != w[w.len() - 2]
    &&& is_punct_char(w.last())
    &&& w[w.len() - 2] != '!'
    &&& w[w.len() - 2] != '?'
}

/// The tokens that one whitespace-delimited word gives.
pub open spec fn word_tokens(w: Seq<char>) -> Seq<Seq<char>> {
    if w.len() == 0 {
        seq![]
    } else if sheds_last(w) {
        seq![w.drop_last(), seq![w.last()]]
    } else {
        seq![w]
    }
}

/// Tokens of `cur + rest`, where `cur` is the part of a word already read.
pub open spec fn split_from(rest: Seq<char>, cur: Seq<char>) -> Seq<Seq<char>>
    decreases rest.len(),
{
    if rest.len() == 0 {
        word_tokens(cur)
    } else if is_space_char(rest[0]) {
        word_tokens(cur) + split_from(rest.drop_first(), seq![])
    } else {
        split_from(rest.drop_first(), cur.push(rest[0]))
    }
}

/// The tokens of a line of text.
pub open spec fn tokens_of(s: Seq<char>) -> Seq<Seq<char>> {
    split_from(s, seq![])
}

/// The character sequences that a vector of strings holds.
pub open spec fn strings_view(v: Seq<String>) -> Seq<Seq<char>> {
    v.map_values(|t: String| t@)
}

/// Whether a token is exactly one punctuation character.
pub open spec fn is_punct_token(t: Seq<char>) -> bool {
    t.len() == 1 && is_punct_char(t[0])
}

pub fn is_punct(c: char) -> (r: bool)
    ensures
        r == is_punct_char(c),
{
    c == '.' || c == ',' || c == '?' || c == '!' || c == ';' || c == ':'
}

fn is_space(c: char) -> (r: bool)
    ensures
        r == is_space_char(c),
{
    let u = c as u32;
    (0x9 <= u && u <= 0xd) || u == 0x20 || u == 0x85 || u == 0xa0 || u == 0x1680 || (0x2000 <= u
        && u <= 0x200a) || u == 0x2028 || u == 0x2029 || u == 0x202f || u == 0x205f || u == 0x3000
}

proof fn lemma_strings_view_push(v: Seq<String>, s: String)
    ensures
        strings_view(v.push(s)) == strings_view(v).push(s@),
{
    assert(strings_view(v.push(s)) =~= strings_view(v).push(s@));
}

/// Appends the tokens of the word `line[start..end]`.
fn push_word_tokens(out: &mut Vec<String>, line: &str, start: usize, end: usize)
    requires
        start <= end <= line@.len(),
    ensures
        strings_view(final(out)@) == strings_view(old(out)@) + word_tokens(
            line@.subrange(start as int, end as int),
        ),
{
    let ghost w = line@.subrange(start as int, end as int);
    let ghost before = out@;
    if start == end {
        assert(strings_view(out@) =~= strings_view(out@) + word_tokens(w));
        return;
    }
    if end - start >= 2 {
        let last = line.get_char(end - 1);
        let second = line.get_char(end - 2);
        if last != second && is_punct(last) && second != '!' && second != '?' {
            let head = String::from_str(line.substring_char(start, end - 1));
            let tail = String::from_str(line.substring_char(end - 1, end));
            proof {
                assert(sheds_last(w));
                assert(head@ =~= w.drop_last());
                assert(tail@ =~= seq![w.last()]);
                lemma_strings_view_push(before, head);
                lemma_strings_view_push(before.push(head), tail);
            }
            out.push(head);
            out.push(tail);
            assert(strings_view(out@) =~= strings_view(before) + word_tokens(w));
            return;
        }
    }
    let whole = String::from_str(line.substring_char(start, end));
    proof {
        assert(!sheds_last(w));
        assert(whole@ =~= w);
        lemma_strings_view_push(before, whole);
    }
    out.push(whole);
    assert(strings_view(out@) =~= strings_view(before) + word_tokens(w));
}

/// Splits a line into word and punctuation tokens.
pub fn split_sentence(line: &str) -> (r: Vec<String>)
    ensures
        strings_view(r@) == tokens_of(line@),
{
    let n = line.unicode_len();
    let mut out: Vec<String> = Vec::new();
    let mut start: usize = 0;
    let mut i: usize = 0;
    assert(line@.skip(0) =~= line@);
    assert(line@.subrange(0, 0) =~= Seq::<char>::empty());
    assert(strings_view(out@) =~= Seq::<Seq<char>>::empty());
    while i < n
        invariant
            start <= i <= n,
            n == line@.len(),
            strings_view(out@) + split_from(line@.skip(i as int), line@.subrange(start as int, i as int))
                == tokens_of(line@),
        decreases n - i,
    {
        let c = line.get_char(i);
        let ghost rest = line@.skip(i as int);
        let ghost cur = line@.subrange(start as int, i as int);
        let ghost before = strings_view(out@);
        assert(rest[0] == c);
        assert(rest.drop_first() =~= line@.skip(i + 1));
        if is_space(c) {
            push_word_tokens(&mut out, line, start, i);
            start = i + 1;
            assert(line@.subrange(start as int, i + 1) =~= Seq::<char>::empty());
            assert(before + (word_tokens(cur) + split_from(rest.drop_first(), seq![])) =~= (before
                + word_tokens(cur)) + split_from(rest.drop_first(), seq![]));
        } else {
            assert(cur.push(c) =~= line@.subrange(start as int, i + 1));
        }
        i += 1;
    }
    assert(line@.skip(n as int) =~= Seq::<char>::empty());
    push_word_tokens(&mut out, line, start, n);
    out
}

/// Whether a parsed character is a punctuation mark; a string that did not parse
/// as one character is not.
pub fn is_punctuation(charresult: Result<char, std::char::ParseCharError>) -> (r: bool)
    ensures
        r == (charresult matches Ok(c) && is_punct_char(c)),
{
    match charresult {
        Ok(c) => is_punct(c),
        Err(_) => false,
    }
}

/// Whether a token is exactly one punctuation character: what `is_punctuation` says of
/// the token parsed as a `char`.
pub fn is_punctuation_token(word: &str) -> (r: bool)
    ensures
        r == is_punct_token(word@),
{
    if word.unicode_len() != 1 {
        return false;
    }
    is_punct(word.get_char(0))
}


/// A line kept for ingestion: one that gives at least one token.
pub open spec fn kept_line(l: Seq<char>) -> Seq<Seq<char>> {
    if tokens_of(l).len() > 0 {
        seq![l]
    } else {
        seq![]
    }
}

/// The lines of `cur + rest` that give tokens, where `cur` is the part of a line already
/// read.
pub open spec fn lines_from(rest: Seq<char>, cur: Seq<char>) -> Seq<Seq<char>>
    decreases rest.len(),
{
    if rest.len() == 0 {
        kept_line(cur)
    } else if rest[0] == '\n' {
        kept_line(cur) + lines_from(rest.drop_first(), seq![])
    } else {
        lines_from(rest.drop_first(), cur.push(rest[0]))
    }
}

/// The newline-separated lines of a corpus, blank ones left out.
pub open spec fn corpus_lines_of(s: Seq<char>) -> Seq<Seq<char>> {
    lines_from(s, seq![])
}

fn push_line(out: &mut Vec<String>, corpus: &str, start: usize, end: usize)
    requires
        start <= end <= corpus@.len(),
    ensures
        strings_view(final(out)@) == strings_view(old(out)@) + kept_line(
            corpus@.subrange(start as int, end as int),
        ),
{
    let line = String::from_str(corpus.substring_char(start, end));
    let tokens = split_sentence(line.as_str());
    let ghost before = out@;
    if tokens.len() > 0 {
        proof {
            lemma_strings_view_push(before, line);
        }
        out.push(line);
    } else {
        assert(strings_view(out@) =~= strings_view(out@) + kept_line(line@));
    }
}

/// The lines of a corpus that give tokens, in order.
pub fn corpus_lines(corpus: &str) -> (r: Vec<String>)
    ensures
        strings_view(r@) == corpus_lines_of(corpus@),
{
    let n = corpus.unicode_len();
    let mut out: Vec<String> = Vec::new();
    let mut start: usize = 0;
    let mut i: usize = 0;
    assert(corpus@.skip(0) =~= corpus@);
    assert(corpus@.subrange(0, 0) =~= Seq::<char>::empty());
    assert(strings_view(out@) =~= Seq::<Seq<char>>::empty());
    while i < n
        invariant
            start <= i <= n,
            n == corpus@.len(),
            strings_view(out@) + lines_from(corpus@.skip(i as int), corpus@.subrange(start as int, i as int))
                == corpus_lines_of(corpus@),
        decreases n - i,
    {
        let c = corpus.get_char(i);
        let ghost rest = corpus@.skip(i as int);
        let ghost cur = corpus@.subrange(start as int, i as int);
        let ghost before = strings_view(out@);
        assert(rest[0] == c);
        assert(rest.drop_first() =~= corpus@.skip(i + 1));
        if c == '\n' {
            push_line(&mut out, corpus, start, i);
            start = i + 1;
            assert(corpus@.subrange(start as int, i + 1) =~= Seq::<char>::empty());
            assert(before + (kept_line(cur) + lines_from(rest.drop_first(), seq![])) =~= (before
                + kept_line(cur)) + lines_from(rest.drop_first(), seq![]));
        } else {
            assert(cur.push(c) =~= corpus@.subrange(start as int, i + 1));
        }
        i += 1;
    }
    assert(corpus@.skip(n as int) =~= Seq::<char>::empty());
    push_line(&mut out, corpus, start, n);
    out
}

} // verus!
