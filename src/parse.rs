use itertools::Itertools;
use vstd::prelude::*;

verus! {

/// The result of a game, as seen by the home team.
#[derive(Clone, Copy, Debug, PartialEq, Eq, Structural)]
pub enum Outcome {
    Win,
    Loss,
    Draw,
}

/// Why a block of match results was refused.
#[derive(Clone, Copy, Debug, PartialEq, Eq, Structural)]
pub enum TallyError {
    /// A non-empty line does not hold exactly three `;`-separated fields.
    MalformedRecord,
    /// The third field is none of `win`, `loss`, `draw`.
    UnknownOutcome,
}

/// The pieces of `s` between occurrences of `sep`, as `str::split` gives them:
/// always at least one piece, and an empty one at each end where `s` starts or
/// ends with `sep`.
pub open spec fn split_on(s: Seq<char>, sep: char) -> Seq<Seq<char>>
    decreases s.len(),
{
    if s.len() == 0 {
        seq![Seq::empty()]
    } else {
        let prev = split_on(s.drop_last(), sep);
        if s.last() == sep {
            prev.push(Seq::empty())
        } else {
            prev.update(prev.len() - 1, prev.last().push(s.last()))
        }
    }
}

pub proof fn lemma_split_on_nonempty(s: Seq<char>, sep: char)
    ensures
        split_on(s, sep).len() >= 1,
    decreases s.len(),
{
    if s.len() > 0 {
        lemma_split_on_nonempty(s.drop_last(), sep);
    }
}

/// What each of a list of character vectors holds.
pub open spec fn views(v: Seq<Vec<char>>) -> Seq<Seq<char>> {
    v.map_values(|p: Vec<char>| p@)
}

/// The outcome that a token names, if any.
pub open spec fn outcome_spec(tok: Seq<char>) -> Option<Outcome> {
    if tok == seq!['w', 'i', 'n'] {
        Some(Outcome::Win)
    } else if tok == seq!['l', 'o', 's', 's'] {
        Some(Outcome::Loss)
    } else if tok == seq!['d', 'r', 'a', 'w'] {
        Some(Outcome::Draw)
    } else {
        None
    }
}

/// A match record: home team, visiting team and the home team's outcome.
pub open spec fn parse_line_spec(line: Seq<char>) -> Result<
    (Seq<char>, Seq<char>, Outcome),
    TallyError,
> {
    let fields = split_on(line, ';');
    if fields.len() != 3 {
        Err(TallyError::MalformedRecord)
    } else {
        match outcome_spec(fields[2]) {
            Some(o) => Ok((fields[0], fields[1], o)),
            None => Err(TallyError::UnknownOutcome),
        }
    }
}

/// How many characters `pieces` cover when laid out with one separator after
/// each piece.
pub open spec fn span(pieces: Seq<Seq<char>>) -> nat
    decreases pieces.len(),
{
    if pieces.len() == 0 {
        0
    } else {
        span(pieces.drop_last()) + pieces.last().len() + 1
    }
}

/// The pieces of a split, with the separators between them, cover the whole text.
pub proof fn lemma_split_on_span(s: Seq<char>, sep: char)
    ensures
        span(split_on(s, sep)) == s.len() + 1,
    decreases s.len(),
{
    if s.len() == 0 {
        assert(split_on(s, sep).drop_last() =~= Seq::<Seq<char>>::empty());
        assert(span(split_on(s, sep).drop_last()) == 0);
    } else {
        let prev = split_on(s.drop_last(), sep);
        lemma_split_on_span(s.drop_last(), sep);
        lemma_split_on_nonempty(s.drop_last(), sep);
        let next = split_on(s, sep);
        if s.last() == sep {
            assert(next.drop_last() =~= prev);
        } else {
            assert(next.drop_last() =~= prev.drop_last());
            assert(span(prev) == span(prev.drop_last()) + prev.last().len() + 1);
        }
    }
}

/// A prefix of a list of pieces covers no more than the whole list.
pub proof fn lemma_span_prefix(pieces: Seq<Seq<char>>, i: int)
    requires
        0 <= i <= pieces.len(),
    ensures
        span(pieces.take(i)) <= span(pieces),
    decreases pieces.len(),
{
    if i < pieces.len() {
        assert(pieces.take(i) =~= pieces.drop_last().take(i));
        lemma_span_prefix(pieces.drop_last(), i);
    } else {
        assert(pieces.take(i) =~= pieces);
    }
}

/// A line that reads as a match record has at least five characters: two
/// separators and an outcome token.
pub proof fn lemma_record_line_len(line: Seq<char>)
    requires
        parse_line_spec(line) is Ok,
    ensures
        line.len() >= 5,
{
    let f = split_on(line, ';');
    lemma_split_on_span(line, ';');
    assert(f.drop_last().drop_last().drop_last() =~= Seq::<Seq<char>>::empty());
    assert(span(f.drop_last().drop_last().drop_last()) == 0);
    assert(span(f.drop_last().drop_last()) == f[0].len() + 1);
    assert(span(f.drop_last()) == f[0].len() + f[1].len() + 2);
    assert(f[2].len() >= 3);
}

/// Relies on itertools' `Itertools::collect_tuple`: `Some` exactly when the
/// iterator yields three items, which it then holds in order.
#[verifier::external_body]
fn three_fields(fields: Vec<Vec<char>>) -> (r: Option<(Vec<char>, Vec<char>, Vec<char>)>)
    ensures
        r is Some <==> fields@.len() == 3,
        r matches Some(t) ==> t.0@ == fields@[0]@ && t.1@ == fields@[1]@ && t.2@ == fields@[2]@,
{
    fields.into_iter().collect_tuple()
}

/// Reads one non-empty line as a match record.
pub fn parse_line(line: &Vec<char>) -> (r: Result<(Vec<char>, Vec<char>, Outcome), TallyError>)
    ensures
        r is Ok <==> parse_line_spec(line@) is Ok,
        r matches Err(e) ==> parse_line_spec(line@) == Err::<(Seq<char>, Seq<char>, Outcome), TallyError>(e),
        r matches Ok(g) ==> parse_line_spec(line@) == Ok::<(Seq<char>, Seq<char>, Outcome), TallyError>((g.0@, g.1@, g.2)),
{
    let fields = split_chars(line, ';');
    let ghost f = views(fields@);
    match three_fields(fields) {
        None => Err(TallyError::MalformedRecord),
        Some((home, away, tok)) => {
            assert(f[0] == home@ && f[1] == away@ && f[2] == tok@);
            match outcome_of(&tok) {
                None => Err(TallyError::UnknownOutcome),
                Some(o) => Ok((home, away, o)),
            }
        },
    }
}

/// The characters of `s`, in order.
pub fn chars_of(s: &str) -> (r: Vec<char>)
    ensures
        r@ == s@,
{
    let mut r: Vec<char> = Vec::new();
    for c in it: s.chars()
        invariant
            r@ == it.seq().take(it.index() as int),
    {
        r.push(c);
    }
    r
}

/// Splits `s` at each occurrence of `sep`.
pub fn split_chars(s: &Vec<char>, sep: char) -> (r: Vec<Vec<char>>)
    ensures
        views(r@) == split_on(s@, sep),
{
    let mut pieces: Vec<Vec<char>> = Vec::new();
    let mut cur: Vec<char> = Vec::new();
    let mut i: usize = 0;
    while i < s.len()
        invariant
            i <= s.len(),
            views(pieces@).push(cur@) == split_on(s@.take(i as int), sep),
        decreases s.len() - i,
    {
        let ghost before = views(pieces@).push(cur@);
        assert(s@.take(i + 1).drop_last() == s@.take(i as int));
        proof {
            lemma_split_on_nonempty(s@.take(i as int), sep);
        }
        if s[i] == sep {
            pieces.push(cur);
            cur = Vec::new();
            assert(views(pieces@).push(cur@) =~= before.push(Seq::empty()));
        } else {
            cur.push(s[i]);
            assert(views(pieces@).push(cur@) =~= before.update(
                before.len() - 1,
                before.last().push(s[i as int]),
            ));
        }
        i += 1;
    }
    assert(s@.take(s.len() as int) == s@);
    let ghost before = views(pieces@).push(cur@);
    pieces.push(cur);
    assert(views(pieces@) =~= before);
    pieces
}

/// Reads an outcome token.
pub fn outcome_of(tok: &Vec<char>) -> (r: Option<Outcome>)
    ensures
        r == outcome_spec(tok@),
{
    if tok.len() == 3 && tok[0] == 'w' && tok[1] == 'i' && tok[2] == 'n' {
        assert(tok@ == seq!['w', 'i', 'n']);
        Some(Outcome::Win)
    } else if tok.len() == 4 && tok[0] == 'l' && tok[1] == 'o' && tok[2] == 's' && tok[3] == 's' {
        assert(tok@ == seq!['l', 'o', 's', 's']);
        Some(Outcome::Loss)
    } else if tok.len() == 4 && tok[0] == 'd' && tok[1] == 'r' && tok[2] == 'a' && tok[3] == 'w' {
        assert(tok@ == seq!['d', 'r', 'a', 'w']);
        Some(Outcome::Draw)
    } else {
        None
    }
}

} // verus!
