//! League standings: match results in, a ranked fixed-width table out.
//!
//! Each line of the input reads `home;visiting;outcome`, the outcome being
//! `win`, `loss` or `draw` for the home team. [`record_games`] gathers each
//! team's record, [`tally_table`] ranks the teams by points and name and lays
//! out the table, and [`tally`] does both.
mod format;
mod parse;
mod rank;
mod record;
mod standings;
mod table;
mod totals;

pub use format::{
    dec, digit, header, pad_left, pad_right, push_header, push_row, render, row_line, rows_text,
    spaces,
};
pub use parse::{
    chars_of, lemma_record_line_len, lemma_span_prefix, lemma_split_on_nonempty,
    lemma_split_on_span, outcome_of, outcome_spec, parse_line, parse_line_spec, span, split_chars,
    split_on, views, Outcome, TallyError,
};
pub use rank::{
    compare_names, compare_teams, lemma_name_less_asymmetric, lemma_name_less_irreflexive,
    lemma_name_less_total, lemma_name_less_transitive, lemma_rank_cmp_equal,
    lemma_rank_strict_total_order, name_less, rank_before, rank_cmp, ranked,
};
pub use record::{RecordView, TeamRecord};
pub use standings::{
    apply_game, credit, law_blank_input, law_game_credits, law_unknown_outcome_refused, lists,
    record_games, record_games_spec, record_of, same_name, tally_lines, team_views, Team,
};
pub use table::{
    distinct_names, law_no_team_renders_header, law_render_deterministic, lemma_map_of, map_of,
    renders, tally_table,
};

use vstd::prelude::*;

verus! {

/// The standings table for a block of match results, or the reason the block
/// was refused; a refused block gives no table at all.
pub fn tally(match_results: &str) -> (r: Result<String, TallyError>)
    ensures
        r is Ok <==> record_games_spec(match_results@) is Ok,
        r matches Err(e) ==> record_games_spec(match_results@) == Err::<
            Map<Seq<char>, RecordView>,
            TallyError,
        >(e),
        r matches Ok(t) ==> renders(record_games_spec(match_results@)->Ok_0, t@),
{
    match record_games(match_results) {
        Err(e) => Err(e),
        Ok(teams) => {
            proof {
                lemma_map_of(team_views(teams@), record_games_spec(match_results@)->Ok_0);
            }
            Ok(tally_table(&teams))
        },
    }
}

} // verus!
pub use totals::{law_totals_balance, total};
