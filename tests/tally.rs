use std::cmp::Ordering;
use tournament::{
    compare_names, outcome_of, parse_line, record_games, split_chars, tally, tally_table, Outcome,
    TallyError, Team, TeamRecord,
};

const HEADER: &str = "Team                           | MP |  W |  D |  L |  P";

fn chars(s: &str) -> Vec<char> {
    s.chars().collect()
}

fn row(name: &str, mp: u32, w: u32, d: u32, l: u32, p: u32) -> String {
    format!("\n{:<30} | {:>2} | {:>2} | {:>2} | {:>2} | {:>2}", name, mp, w, d, l, p)
}

fn team(name: &str, wins: usize, losses: usize, draws: usize) -> Team {
    Team { name: chars(name), record: TeamRecord { wins, losses, draws } }
}

#[test]
fn header_only_for_empty_input() {
    assert_eq!(tally("").unwrap(), HEADER);
}

#[test]
fn header_only_for_blank_lines() {
    assert_eq!(tally("\n\n\n").unwrap(), HEADER);
}

#[test]
fn header_is_padded_to_31() {
    let h = tally("").unwrap();
    assert_eq!(h.find('|'), Some(31));
    assert!(h.starts_with("Team "));
}

#[test]
fn league_of_four() {
    let input = "Lions;Snakes;win\n\
                 Tarantulas;FC Awesome;loss\n\
                 Lions;FC Awesome;win\n\
                 Tarantulas;Snakes;loss\n\
                 Lions;FC Awesome;win";
    let expected = String::from(HEADER)
        + &row("Lions", 3, 3, 0, 0, 9)
        + &row("FC Awesome", 3, 1, 0, 2, 3)
        + &row("Snakes", 2, 1, 0, 1, 3)
        + &row("Tarantulas", 2, 0, 0, 2, 0);
    assert_eq!(tally(input).unwrap(), expected);
}

#[test]
fn lions_row_in_league() {
    let input = "Lions;Snakes;win\nTarantulas;FC Awesome;loss\nLions;FC Awesome;win\n\
                 Tarantulas;Snakes;loss\nLions;FC Awesome;win";
    let out = tally(input).unwrap();
    let lines: Vec<&str> = out.split('\n').collect();
    assert_eq!(lines[1], "Lions                          |  3 |  3 |  0 |  0 |  9");
    assert!(out.contains("Snakes                         |  2 |  1 |  0 |  1 |  3"));
}

#[test]
fn single_win() {
    let expected = String::from(HEADER)
        + "\nAllegoric Alaskans             |  1 |  1 |  0 |  0 |  3"
        + "\nBlithering Badgers             |  1 |  0 |  0 |  1 |  0";
    assert_eq!(tally("Allegoric Alaskans;Blithering Badgers;win").unwrap(), expected);
}

#[test]
fn single_loss_credits_visitor() {
    let expected = String::from(HEADER) + &row("Badgers", 1, 1, 0, 0, 3) + &row("Alaskans", 1, 0, 0, 1, 0);
    assert_eq!(tally("Alaskans;Badgers;loss").unwrap(), expected);
}

#[test]
fn draw_gives_one_point_each() {
    let expected = String::from(HEADER) + &row("Alaskans", 1, 0, 1, 0, 1) + &row("Badgers", 1, 0, 1, 0, 1);
    assert_eq!(tally("Badgers;Alaskans;draw").unwrap(), expected);
}

#[test]
fn equal_points_ordered_by_name() {
    let expected = String::from(HEADER)
        + &row("Apples", 2, 1, 0, 1, 3)
        + &row("Bananas", 2, 1, 0, 1, 3);
    assert_eq!(tally("Bananas;Apples;win\nApples;Bananas;win").unwrap(), expected);
}

#[test]
fn name_order_is_by_bytes() {
    // Upper case comes before lower case, and a prefix before its extensions.
    let expected = String::from(HEADER)
        + &row("Zebras", 1, 0, 1, 0, 1)
        + &row("ab", 1, 0, 1, 0, 1)
        + &row("abc", 1, 0, 1, 0, 1)
        + &row("abd", 1, 0, 1, 0, 1);
    assert_eq!(tally("abd;abc;draw\nab;Zebras;draw").unwrap(), expected);
}

#[test]
fn points_outrank_names() {
    let expected = String::from(HEADER) + &row("Zulu", 1, 1, 0, 0, 3) + &row("Alpha", 1, 0, 0, 1, 0);
    assert_eq!(tally("Alpha;Zulu;loss").unwrap(), expected);
}

#[test]
fn empty_lines_are_skipped() {
    assert_eq!(tally("\nA;B;win\n\n").unwrap(), tally("A;B;win").unwrap());
}

#[test]
fn unknown_outcome_is_refused() {
    assert_eq!(tally("A;B;tie"), Err(TallyError::UnknownOutcome));
}

#[test]
fn unknown_outcome_after_good_lines_is_refused() {
    assert_eq!(tally("A;B;win\nC;D;draw\nA;C;Win"), Err(TallyError::UnknownOutcome));
}

#[test]
fn outcome_is_not_trimmed() {
    assert_eq!(tally("A;B;win "), Err(TallyError::UnknownOutcome));
    assert_eq!(tally("A;B;win\r\n"), Err(TallyError::UnknownOutcome));
}

#[test]
fn too_few_fields_is_refused() {
    assert_eq!(tally("A;B"), Err(TallyError::MalformedRecord));
}

#[test]
fn too_many_fields_is_refused() {
    assert_eq!(tally("A;B;win;extra"), Err(TallyError::MalformedRecord));
}

#[test]
fn first_bad_line_decides_the_error() {
    assert_eq!(tally("A;B;tie\nA;B"), Err(TallyError::UnknownOutcome));
    assert_eq!(tally("A;B\nA;B;tie"), Err(TallyError::MalformedRecord));
}

#[test]
fn empty_team_name_is_a_team() {
    let expected = String::from(HEADER) + &row("", 1, 1, 0, 0, 3) + &row("B", 1, 0, 0, 1, 0);
    assert_eq!(tally(";B;win").unwrap(), expected);
}

#[test]
fn names_are_not_normalised() {
    let out = tally("lions;Lions;draw").unwrap();
    assert_eq!(out.split('\n').count(), 3);
}

#[test]
fn team_meeting_itself() {
    let expected = String::from(HEADER) + &row("Solo", 2, 1, 0, 1, 3);
    assert_eq!(tally("Solo;Solo;win").unwrap(), expected);
    let expected = String::from(HEADER) + &row("Solo", 2, 0, 2, 0, 2);
    assert_eq!(tally("Solo;Solo;draw").unwrap(), expected);
}

#[test]
fn long_name_is_not_cut() {
    let name = "A team whose name is longer than thirty characters";
    let out = tally(&format!("{};B;win", name)).unwrap();
    let lines: Vec<&str> = out.split('\n').collect();
    assert_eq!(lines[1], format!("{} |  1 |  1 |  0 |  0 |  3", name));
}

#[test]
fn wide_numbers_widen_the_column() {
    let mut input = String::new();
    for _ in 0..40 {
        input.push_str("Big;Small;win\n");
    }
    let out = tally(&input).unwrap();
    let lines: Vec<&str> = out.split('\n').collect();
    assert_eq!(lines[1], format!("{:<30} | 40 | 40 |  0 |  0 | 120", "Big"));
    assert_eq!(lines[2], format!("{:<30} | 40 |  0 |  0 | 40 |  0", "Small"));
}

#[test]
fn points_formula() {
    let r = TeamRecord { wins: 4, losses: 7, draws: 5 };
    assert_eq!(r.points(), 17);
    assert_eq!(r.matches_played(), 16);
    let big = TeamRecord { wins: usize::MAX, losses: usize::MAX, draws: usize::MAX };
    assert_eq!(big.points(), 4 * (usize::MAX as u128));
    assert_eq!(big.matches_played(), 3 * (usize::MAX as u128));
}

#[test]
fn record_games_counts() {
    let teams = record_games("A;B;win\nB;C;draw\nC;A;loss\nA;B;loss").unwrap();
    let find = |n: &str| teams.iter().find(|t| t.name == chars(n)).unwrap().record;
    assert_eq!(teams.len(), 3);
    assert_eq!(find("A"), TeamRecord { wins: 2, losses: 1, draws: 0 });
    assert_eq!(find("B"), TeamRecord { wins: 1, losses: 1, draws: 1 });
    assert_eq!(find("C"), TeamRecord { wins: 0, losses: 1, draws: 1 });
}

#[test]
fn record_games_refuses_bad_token() {
    assert_eq!(record_games("A;B;lost").err(), Some(TallyError::UnknownOutcome));
}

#[test]
fn rendering_twice_is_identical() {
    let teams = record_games("A;B;win\nB;C;draw\nC;A;win").unwrap();
    assert_eq!(tally_table(&teams), tally_table(&teams));
}

#[test]
fn rendering_ignores_list_order() {
    let one = vec![team("Cats", 1, 0, 0), team("Ants", 0, 0, 1), team("Bees", 0, 0, 1), team("Dogs", 0, 1, 0)];
    let two = vec![team("Dogs", 0, 1, 0), team("Bees", 0, 0, 1), team("Cats", 1, 0, 0), team("Ants", 0, 0, 1)];
    let expected = String::from(HEADER)
        + &row("Cats", 1, 1, 0, 0, 3)
        + &row("Ants", 1, 0, 1, 0, 1)
        + &row("Bees", 1, 0, 1, 0, 1)
        + &row("Dogs", 1, 0, 0, 1, 0);
    assert_eq!(tally_table(&one), expected);
    assert_eq!(tally_table(&two), expected);
}

#[test]
fn table_of_no_teams() {
    assert_eq!(tally_table(&Vec::new()), HEADER);
}

#[test]
fn parse_line_fields() {
    let (home, away, o) = parse_line(&chars("Home Team;Away;draw")).unwrap();
    assert_eq!(home, chars("Home Team"));
    assert_eq!(away, chars("Away"));
    assert_eq!(o, Outcome::Draw);
    assert_eq!(parse_line(&chars("a;b")).err(), Some(TallyError::MalformedRecord));
    assert_eq!(parse_line(&chars("a;b;c;d")).err(), Some(TallyError::MalformedRecord));
}

#[test]
fn outcome_tokens() {
    assert_eq!(outcome_of(&chars("win")), Some(Outcome::Win));
    assert_eq!(outcome_of(&chars("loss")), Some(Outcome::Loss));
    assert_eq!(outcome_of(&chars("draw")), Some(Outcome::Draw));
    assert_eq!(outcome_of(&chars("WIN")), None);
    assert_eq!(outcome_of(&chars("")), None);
}

#[test]
fn split_keeps_empty_pieces() {
    let pieces = split_chars(&chars(";a;;b;"), ';');
    assert_eq!(pieces, vec![chars(""), chars("a"), chars(""), chars("b"), chars("")]);
    assert_eq!(split_chars(&chars(""), ';'), vec![chars("")]);
}

#[test]
fn name_comparison() {
    assert_eq!(compare_names(&chars("Snakes"), &chars("Tarantulas")), Ordering::Less);
    assert_eq!(compare_names(&chars("abc"), &chars("ab")), Ordering::Greater);
    assert_eq!(compare_names(&chars("same"), &chars("same")), Ordering::Equal);
}

#[test]
fn wins_balance_losses_and_draws_are_even() {
    let teams = record_games("A;B;win\nB;C;draw\nC;A;loss\nA;A;draw\nD;B;loss\nC;D;draw").unwrap();
    let wins: usize = teams.iter().map(|t| t.record.wins).sum();
    let losses: usize = teams.iter().map(|t| t.record.losses).sum();
    let draws: usize = teams.iter().map(|t| t.record.draws).sum();
    assert_eq!(wins, losses);
    assert_eq!(wins, 3);
    assert_eq!(draws, 6);
}

#[test]
fn rows_are_ranked() {
    let out = tally("E;A;win\nB;C;draw\nC;D;win\nD;E;draw\nA;B;loss\nF;A;draw").unwrap();
    let rows: Vec<(String, u32)> = out
        .split('\n')
        .skip(1)
        .map(|l| {
            let cells: Vec<&str> = l.split('|').collect();
            (cells[0].trim_end().to_string(), cells[5].trim().parse().unwrap())
        })
        .collect();
    assert_eq!(rows.len(), 6);
    for w in rows.windows(2) {
        assert!(w[0].1 > w[1].1 || (w[0].1 == w[1].1 && w[0].0 < w[1].0));
    }
}
