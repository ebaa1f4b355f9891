use crate::parse::{
    chars_of, lemma_record_line_len, lemma_span_prefix, lemma_split_on_span, parse_line,
    outcome_spec, parse_line_spec, span, split_chars, split_on, views, Outcome, TallyError,
};
use crate::format::header;
use crate::record::{RecordView, TeamRecord};
use crate::table::{law_no_team_renders_header, renders};
use vstd::prelude::*;

verus! {

/// A team and its record.
#[derive(Debug)]
pub struct Team {
    pub name: Vec<char>,
    pub record: TeamRecord,
}

impl View for Team {
    type V = (Seq<char>, RecordView);

    open spec fn view(&self) -> (Seq<char>, RecordView) {
        (self.name@, self.record@)
    }
}

/// What a list of teams holds, team by team.
pub open spec fn team_views(teams: Seq<Team>) -> Seq<(Seq<char>, RecordView)> {
    teams.map_values(|t: Team| t@)
}

/// `rows` names each team of `m` exactly once, with its record.
pub open spec fn lists(rows: Seq<(Seq<char>, RecordView)>, m: Map<Seq<char>, RecordView>) -> bool {
    &&& forall|i: int, j: int|
        0 <= i < rows.len() && 0 <= j < rows.len() && i != j ==> rows[i].0 != rows[j].0
    &&& forall|i: int| 0 <= i < rows.len() ==> m.contains_key(#[trigger] rows[i].0) && m[rows[i].0] == rows[i].1
    &&& forall|k: Seq<char>| #[trigger] m.contains_key(k) ==> exists|i: int| 0 <= i < rows.len() && rows[i].0 == k
}

/// The record of `team` in `m`; a team not seen yet has played no game.
pub open spec fn record_of(m: Map<Seq<char>, RecordView>, team: Seq<char>) -> RecordView {
    if m.contains_key(team) {
        m[team]
    } else {
        RecordView { wins: 0, losses: 0, draws: 0 }
    }
}

/// `m` with the given wins, losses and draws added to `team`.
pub open spec fn credit(
    m: Map<Seq<char>, RecordView>,
    team: Seq<char>,
    w: nat,
    l: nat,
    d: nat,
) -> Map<Seq<char>, RecordView> {
    let r = record_of(m, team);
    m.insert(team, RecordView { wins: r.wins + w, losses: r.losses + l, draws: r.draws + d })
}

/// `m` after one game: the home team first, then the visiting team.
pub open spec fn apply_game(
    m: Map<Seq<char>, RecordView>,
    home: Seq<char>,
    away: Seq<char>,
    o: Outcome,
) -> Map<Seq<char>, RecordView> {
    match o {
        Outcome::Win => credit(credit(m, home, 1, 0, 0), away, 0, 1, 0),
        Outcome::Loss => credit(credit(m, home, 0, 1, 0), away, 1, 0, 0),
        Outcome::Draw => credit(credit(m, home, 0, 0, 1), away, 0, 0, 1),
    }
}

/// The records that `lines` give, read in order; empty lines are skipped, and
/// the first line that is no match record decides the error.
pub open spec fn tally_lines(lines: Seq<Seq<char>>) -> Result<Map<Seq<char>, RecordView>, TallyError>
    decreases lines.len(),
{
    if lines.len() == 0 {
        Ok(Map::empty())
    } else {
        match tally_lines(lines.drop_last()) {
            Err(e) => Err(e),
            Ok(m) => if lines.last().len() == 0 {
                Ok(m)
            } else {
                match parse_line_spec(lines.last()) {
                    Err(e) => Err(e),
                    Ok(g) => Ok(apply_game(m, g.0, g.1, g.2)),
                }
            },
        }
    }
}

/// The records that a block of match results gives, one line per match.
pub open spec fn record_games_spec(input: Seq<char>) -> Result<Map<Seq<char>, RecordView>, TallyError> {
    tally_lines(split_on(input, '\n'))
}

/// Once a line is refused, no later line changes the error.
pub proof fn lemma_tally_lines_err(lines: Seq<Seq<char>>, i: int)
    requires
        0 <= i <= lines.len(),
        tally_lines(lines.take(i)) is Err,
    ensures
        tally_lines(lines) == tally_lines(lines.take(i)),
    decreases lines.len(),
{
    if i < lines.len() {
        assert(lines.take(i) =~= lines.drop_last().take(i));
        lemma_tally_lines_err(lines.drop_last(), i);
    } else {
        assert(lines.take(i) =~= lines);
    }
}

/// Whether two names are the same.
pub fn same_name(a: &Vec<char>, b: &Vec<char>) -> (r: bool)
    ensures
        r == (a@ == b@),
{
    if a.len() != b.len() {
        return false;
    }
    let mut i: usize = 0;
    while i < a.len()
        invariant
            i <= a.len() == b.len(),
            forall|j: int| 0 <= j < i ==> a@[j] == b@[j],
        decreases a.len() - i,
    {
        if a[i] != b[i] {
            return false;
        }
        i += 1;
    }
    assert(a@ =~= b@);
    true
}

/// Adds wins, losses and draws to `name`, which joins the list if new.
fn add_result(
    teams: &mut Vec<Team>,
    Ghost(m): Ghost<Map<Seq<char>, RecordView>>,
    name: Vec<char>,
    w: usize,
    l: usize,
    d: usize,
)
    requires
        lists(team_views(old(teams)@), m),
        record_of(m, name@).wins + w <= usize::MAX,
        record_of(m, name@).losses + l <= usize::MAX,
        record_of(m, name@).draws + d <= usize::MAX,
    ensures
        lists(team_views(final(teams)@), credit(m, name@, w as nat, l as nat, d as nat)),
{
    let ghost rows = team_views(teams@);
    let ghost m2 = credit(m, name@, w as nat, l as nat, d as nat);
    let mut i: usize = 0;
    while i < teams.len()
        invariant
            i <= teams.len(),
            teams@ == old(teams)@,
            rows == team_views(teams@),
            m2 == credit(m, name@, w as nat, l as nat, d as nat),
            lists(rows, m),
            forall|j: int| 0 <= j < i ==> rows[j].0 != name@,
            record_of(m, name@).wins + w <= usize::MAX,
            record_of(m, name@).losses + l <= usize::MAX,
            record_of(m, name@).draws + d <= usize::MAX,
        decreases teams.len() - i,
    {
        if same_name(&teams[i].name, &name) {
            let rec = teams[i].record;
            assert(rows[i as int] == teams@[i as int]@);
            assert(rows[i as int].0 == name@);
            assert(rows[i as int].1 == m[name@]);
            teams[i].record = TeamRecord {
                wins: rec.wins + w,
                losses: rec.losses + l,
                draws: rec.draws + d,
            };
            let ghost rows2 = team_views(teams@);
            assert(teams@[i as int].record@ == m2[name@]);
            assert forall|j: int| 0 <= j < rows2.len() implies rows2[j] == rows.update(
                i as int,
                (name@, m2[name@]),
            )[j] by {
                if j != i {
                    assert(teams@[j] == old(teams)@[j]);
                    assert(rows[j] == old(teams)@[j]@);
                }
            }
            assert(rows2 =~= rows.update(i as int, (name@, m2[name@])));
            assert forall|k: Seq<char>| #[trigger] m2.contains_key(k) implies exists|j: int|
                0 <= j < rows2.len() && rows2[j].0 == k by {
                if k != name@ {
                    let j = choose|j: int| 0 <= j < rows.len() && rows[j].0 == k;
                    assert(rows2[j].0 == k);
                } else {
                    assert(rows2[i as int].0 == k);
                }
            }
            return;
        }
        assert(rows[i as int] == teams@[i as int]@);
        i += 1;
    }
    let ghost nm = name@;
    teams.push(Team { name, record: TeamRecord { wins: w, losses: l, draws: d } });
    let ghost rows2 = team_views(teams@);
    assert(rows2 =~= rows.push((nm, m2[nm])));
    assert(!m.contains_key(nm));
    assert forall|k: Seq<char>| #[trigger] m2.contains_key(k) implies exists|j: int|
        0 <= j < rows2.len() && rows2[j].0 == k by {
        if k != nm {
            let j = choose|j: int| 0 <= j < rows.len() && rows[j].0 == k;
            assert(rows2[j].0 == k);
        } else {
            assert(rows2[rows.len() as int].0 == k);
        }
    }
}

/// One game adds at most two to any team's games played (two where a team
/// meets itself).
proof fn lemma_apply_game_bound(
    m: Map<Seq<char>, RecordView>,
    home: Seq<char>,
    away: Seq<char>,
    o: Outcome,
    b: nat,
)
    requires
        forall|k: Seq<char>| #[trigger] m.contains_key(k) ==> m[k].matches_played() <= b,
    ensures
        forall|k: Seq<char>| #[trigger] apply_game(m, home, away, o).contains_key(k)
            ==> apply_game(m, home, away, o)[k].matches_played() <= b + 2,
{
    assert forall|k: Seq<char>| #[trigger] apply_game(m, home, away, o).contains_key(k)
        implies apply_game(m, home, away, o)[k].matches_played() <= b + 2 by {
        if m.contains_key(k) {
            assert(m[k].matches_played() <= b);
        }
    }
}

/// Reads a block of match results, one per line, into each team's record.
pub fn record_games(match_results: &str) -> (r: Result<Vec<Team>, TallyError>)
    ensures
        r is Ok <==> record_games_spec(match_results@) is Ok,
        r matches Err(e) ==> record_games_spec(match_results@) == Err::<
            Map<Seq<char>, RecordView>,
            TallyError,
        >(e),
        r matches Ok(teams) ==> lists(team_views(teams@), record_games_spec(match_results@)->Ok_0),
{
    let text = chars_of(match_results);
    // The length of a vector fits in `usize`; that bounds every count below.
    let text_len: usize = text.len();
    assert(text@.len() == text_len);
    let lines = split_chars(&text, '\n');
    let ghost all = views(lines@);
    proof {
        lemma_split_on_span(text@, '\n');
    }
    let mut teams: Vec<Team> = Vec::new();
    let ghost mut games: nat = 0;
    let mut i: usize = 0;
    assert(all.take(0) =~= Seq::<Seq<char>>::empty());
    assert(team_views(teams@) =~= Seq::empty());
    while i < lines.len()
        invariant
            i <= lines.len(),
            all == views(lines@),
            all == split_on(match_results@, '\n'),
            span(all) == text@.len() + 1,
            text@.len() <= usize::MAX,
            tally_lines(all.take(i as int)) is Ok,
            lists(team_views(teams@), tally_lines(all.take(i as int))->Ok_0),
            6 * games <= span(all.take(i as int)),
            forall|k: Seq<char>| #[trigger]
                tally_lines(all.take(i as int))->Ok_0.contains_key(k)
                    ==> tally_lines(all.take(i as int))->Ok_0[k].matches_played() <= 2 * games,
        decreases lines.len() - i,
    {
        let ghost m = tally_lines(all.take(i as int))->Ok_0;
        assert(all.take(i + 1).drop_last() =~= all.take(i as int));
        assert(all.take(i + 1).last() == lines@[i as int]@);
        proof {
            lemma_span_prefix(all, i + 1);
        }
        if lines[i].len() > 0 {
            match parse_line(&lines[i]) {
                Err(e) => {
                    proof {
                        lemma_tally_lines_err(all, i + 1);
                    }
                    return Err(e);
                },
                Ok((home, away, o)) => {
                    proof {
                        lemma_record_line_len(lines@[i as int]@);
                    }
                    let ghost h = home@;
                    let ghost a = away@;
                    assert(record_of(m, h).matches_played() <= 2 * games);
                    assert(record_of(m, a).matches_played() <= 2 * games);
                    match o {
                        Outcome::Win => {
                            add_result(&mut teams, Ghost(m), home, 1, 0, 0);
                            add_result(&mut teams, Ghost(credit(m, h, 1, 0, 0)), away, 0, 1, 0);
                        },
                        Outcome::Loss => {
                            add_result(&mut teams, Ghost(m), home, 0, 1, 0);
                            add_result(&mut teams, Ghost(credit(m, h, 0, 1, 0)), away, 1, 0, 0);
                        },
                        Outcome::Draw => {
                            add_result(&mut teams, Ghost(m), home, 0, 0, 1);
                            add_result(&mut teams, Ghost(credit(m, h, 0, 0, 1)), away, 0, 0, 1);
                        },
                    }
                    proof {
                        lemma_apply_game_bound(m, h, a, o, 2 * games);
                        games = games + 1;
                    }
                },
            }
        }
        i += 1;
    }
    assert(all.take(lines.len() as int) =~= all);
    Ok(teams)
}

/// Each game credits its two teams and no other: a win to one side and a loss
/// to the other, or a draw to both.
pub proof fn law_game_credits(
    m: Map<Seq<char>, RecordView>,
    home: Seq<char>,
    away: Seq<char>,
    o: Outcome,
)
    ensures
        forall|t: Seq<char>|
            #[trigger] apply_game(m, home, away, o).contains_key(t) <==> (m.contains_key(t) || t
                == home || t == away),
        forall|t: Seq<char>|
            #[trigger] record_of(apply_game(m, home, away, o), t) == (RecordView {
                wins: record_of(m, t).wins + (if (o == Outcome::Win && t == home) || (o
                    == Outcome::Loss && t == away) {
                    1nat
                } else {
                    0nat
                }),
                losses: record_of(m, t).losses + (if (o == Outcome::Win && t == away) || (o
                    == Outcome::Loss && t == home) {
                    1nat
                } else {
                    0nat
                }),
                draws: record_of(m, t).draws + (if o == Outcome::Draw && t == home {
                    1nat
                } else {
                    0nat
                }) + (if o == Outcome::Draw && t == away {
                    1nat
                } else {
                    0nat
                }),
            }),
{
}

/// A block of results that holds a record whose outcome token is none of
/// `win`, `loss`, `draw` is refused as a whole.
pub proof fn law_unknown_outcome_refused(input: Seq<char>, i: int)
    requires
        0 <= i < split_on(input, '\n').len(),
        split_on(split_on(input, '\n')[i], ';').len() == 3,
        outcome_spec(split_on(split_on(input, '\n')[i], ';')[2]) is None,
    ensures
        record_games_spec(input) is Err,
{
    let lines = split_on(input, '\n');
    let line = lines[i];
    if line.len() == 0 {
        assert(split_on(line, ';') == seq![Seq::<char>::empty()]);
    }
    assert(lines.take(i + 1).drop_last() =~= lines.take(i));
    assert(lines.take(i + 1).last() == line);
    assert(tally_lines(lines.take(i + 1)) is Err);
    lemma_tally_lines_err(lines, i + 1);
}

/// Lines that are all empty give no team.
proof fn lemma_blank_lines(lines: Seq<Seq<char>>)
    requires
        forall|i: int| 0 <= i < lines.len() ==> (#[trigger] lines[i]).len() == 0,
    ensures
        tally_lines(lines) == Ok::<Map<Seq<char>, RecordView>, TallyError>(Map::empty()),
    decreases lines.len(),
{
    if lines.len() > 0 {
        lemma_blank_lines(lines.drop_last());
    }
}

/// Input with no non-empty line gives no team, and so a table that is the
/// header line alone.
pub proof fn law_blank_input(input: Seq<char>)
    requires
        forall|i: int|
            0 <= i < split_on(input, '\n').len() ==> (#[trigger] split_on(input, '\n')[i]).len()
                == 0,
    ensures
        record_games_spec(input) == Ok::<Map<Seq<char>, RecordView>, TallyError>(Map::empty()),
        forall|text: Seq<char>|
            #[trigger] renders(Map::empty(), text) ==> text == header(),
{
    lemma_blank_lines(split_on(input, '\n'));
    assert forall|text: Seq<char>| #[trigger] renders(Map::empty(), text) implies text == header() by {
        law_no_team_renders_header(text);
    }
}

} // verus!
