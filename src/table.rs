use crate::format::{header, push_header, push_row, render, rows_text};
use crate::rank::{compare_teams, lemma_rank_cmp_equal, rank_before, rank_cmp, ranked};
use crate::record::RecordView;
use crate::standings::{lists, team_views, Team};
use itertools::Itertools;
use std::cmp::Ordering;
use vstd::prelude::*;

verus! {

broadcast use vstd::seq_lib::group_to_multiset_ensures;

/// No two entries share a name.
pub open spec fn distinct_names(entries: Seq<(Seq<char>, RecordView)>) -> bool {
    forall|i: int, j: int|
        0 <= i < entries.len() && 0 <= j < entries.len() && i != j ==> entries[i].0 != entries[j].0
}

/// The mapping from name to record that a list of entries gives.
pub open spec fn map_of(entries: Seq<(Seq<char>, RecordView)>) -> Map<Seq<char>, RecordView> {
    Map::new(
        |k: Seq<char>| exists|i: int| 0 <= i < entries.len() && entries[i].0 == k,
        |k: Seq<char>| entries[choose|i: int| 0 <= i < entries.len() && entries[i].0 == k].1,
    )
}

/// `text` is the standings table of `m`: its header, then one row per team,
/// best ranked first.
pub open spec fn renders(m: Map<Seq<char>, RecordView>, text: Seq<char>) -> bool {
    exists|rows: Seq<(Seq<char>, RecordView)>| lists(rows, m) && ranked(rows) && text == render(rows)
}

/// Entries with distinct names list the mapping they give, and no other.
pub proof fn lemma_map_of(entries: Seq<(Seq<char>, RecordView)>, m: Map<Seq<char>, RecordView>)
    ensures
        distinct_names(entries) ==> lists(entries, map_of(entries)),
        lists(entries, m) ==> map_of(entries) == m,
{
    let mo = map_of(entries);
    if distinct_names(entries) {
        assert forall|i: int| 0 <= i < entries.len() implies mo.contains_key(
            #[trigger] entries[i].0,
        ) && mo[entries[i].0] == entries[i].1 by {
            let j = choose|j: int| 0 <= j < entries.len() && entries[j].0 == entries[i].0;
            assert(j == i);
        }
    }
    if lists(entries, m) {
        assert forall|k: Seq<char>| mo.contains_key(k) <==> m.contains_key(k) by {
            if mo.contains_key(k) {
                let j = choose|j: int| 0 <= j < entries.len() && entries[j].0 == k;
                assert(m.contains_key(entries[j].0));
            }
        }
        assert forall|k: Seq<char>| mo.contains_key(k) implies mo[k] == m[k] by {
            let j = choose|j: int| 0 <= j < entries.len() && entries[j].0 == k;
            assert(m.contains_key(entries[j].0));
        }
        assert(mo =~= m);
    }
}

/// Ranks `teams[order[i]]` for the sort below.
fn compare_positions(teams: &Vec<Team>, a: usize, b: usize) -> (r: Ordering)
    requires
        a < teams.len(),
        b < teams.len(),
    ensures
        r == rank_cmp(teams@[a as int]@, teams@[b as int]@),
{
    compare_teams(&teams[a], &teams[b])
}

/// Relies on itertools' `Itertools::sorted_by`, which sorts with
/// `slice::sort_by`: the same items come out, and with a comparison that is a
/// total order (as the ranking is) none compares greater than a later one.
#[verifier::external_body]
fn sort_positions(order: Vec<usize>, teams: &Vec<Team>) -> (r: Vec<usize>)
    requires
        forall|i: int| 0 <= i < order.len() ==> order[i] < teams.len(),
    ensures
        r@.to_multiset() == order@.to_multiset(),
        forall|i: int, j: int|
            0 <= i < j < r.len() ==> rank_cmp(
                teams@[r@[i] as int]@,
                teams@[r@[j] as int]@,
            ) != Ordering::Greater,
{
    order.into_iter().sorted_by(|a, b| compare_positions(teams, *a, *b)).collect()
}

/// Relies on `String`'s `FromIterator<&char>`: the characters, in order.
#[verifier::external_body]
fn string_of(chars: &Vec<char>) -> (r: String)
    ensures
        r@ == chars@,
{
    chars.iter().collect()
}

/// A rearrangement of `0..n` holds each position once.
proof fn lemma_positions(order: Seq<usize>, r: Seq<usize>, n: nat)
    requires
        order.len() == n,
        forall|i: int| 0 <= i < n ==> order[i] == i,
        r.to_multiset() == order.to_multiset(),
    ensures
        r.len() == n,
        r.no_duplicates(),
        forall|i: int| 0 <= i < n ==> r[i] < n,
        forall|j: usize| j < n ==> #[trigger] r.contains(j),
{
    assert(order.no_duplicates());
    vstd::seq_lib::to_multiset_len(r);
    vstd::seq_lib::to_multiset_len(order);
    order.lemma_multiset_has_no_duplicates();
    r.lemma_multiset_has_no_duplicates_conv();
    assert forall|i: int| 0 <= i < r.len() implies r[i] < n by {
        assert(r.to_multiset().count(r[i]) > 0);
        assert(order.contains(r[i]));
    }
    assert forall|j: usize| j < n implies #[trigger] r.contains(j) by {
        assert(order[j as int] == j);
        assert(order.to_multiset().count(j) > 0);
    }
}

/// Renders the standings of `teams`: a header line, then one line per team,
/// by points, most first, and by name where points are level.
pub fn tally_table(teams: &Vec<Team>) -> (r: String)
    requires
        distinct_names(team_views(teams@)),
    ensures
        renders(map_of(team_views(teams@)), r@),
{
    let ghost entries = team_views(teams@);
    let n = teams.len();
    let mut order: Vec<usize> = Vec::new();
    for k in 0..n
        invariant
            n == teams.len(),
            order.len() == k,
            forall|i: int| 0 <= i < k ==> order[i] == i,
    {
        order.push(k);
    }
    let ghost order0 = order@;
    let sorted = sort_positions(order, teams);
    proof {
        lemma_positions(order0, sorted@, n as nat);
    }
    let ghost rows = sorted@.map_values(|k: usize| entries[k as int]);
    let mut out: Vec<char> = Vec::new();
    push_header(&mut out);
    for i in 0..sorted.len()
        invariant
            sorted@.len() == n,
            n == teams.len(),
            entries == team_views(teams@),
            rows == sorted@.map_values(|k: usize| entries[k as int]),
            forall|j: int| 0 <= j < n ==> sorted@[j] < n,
            out@ == header() + rows_text(rows.take(i as int)),
    {
        let k = sorted[i];
        push_row(&mut out, &teams[k]);
        assert(rows.take(i + 1).drop_last() =~= rows.take(i as int));
        assert(rows.take(i + 1).last() == teams@[k as int]@);
    }
    assert(rows.take(n as int) =~= rows);
    proof {
        lemma_map_of(entries, Map::empty());
        let m = map_of(entries);
        assert forall|i: int, j: int|
            0 <= i < rows.len() && 0 <= j < rows.len() && i != j implies rows[i].0 != rows[j].0 by {
            assert(sorted@[i] != sorted@[j]);
        }
        assert forall|i: int| 0 <= i < rows.len() implies m.contains_key(#[trigger] rows[i].0)
            && m[rows[i].0] == rows[i].1 by {
            assert(rows[i] == entries[sorted@[i] as int]);
        }
        assert forall|k: Seq<char>| #[trigger] m.contains_key(k) implies exists|i: int|
            0 <= i < rows.len() && rows[i].0 == k by {
            let j = choose|j: int| 0 <= j < entries.len() && entries[j].0 == k;
            assert(sorted@.contains(j as usize));
            let i = choose|i: int| 0 <= i < sorted@.len() && sorted@[i] == j as usize;
            assert(rows[i].0 == k);
        }
        assert forall|i: int, j: int| 0 <= i < j < rows.len() implies rank_before(
            #[trigger] rows[i],
            #[trigger] rows[j],
        ) by {
            lemma_rank_cmp_equal(rows[i], rows[j]);
            assert(rows[i] == teams@[sorted@[i] as int]@);
            assert(rows[j] == teams@[sorted@[j] as int]@);
            assert(sorted@[i] != sorted@[j]);
        }
        assert(lists(rows, m) && ranked(rows) && out@ == render(rows));
    }
    string_of(&out)
}

/// The rows after the first list the mapping without the first row's team.
proof fn lemma_lists_drop_first(rows: Seq<(Seq<char>, RecordView)>, m: Map<Seq<char>, RecordView>)
    requires
        rows.len() > 0,
        lists(rows, m),
    ensures
        lists(rows.drop_first(), m.remove(rows[0].0)),
{
    let rest = rows.drop_first();
    let m2 = m.remove(rows[0].0);
    assert forall|i: int| 0 <= i < rest.len() implies m2.contains_key(#[trigger] rest[i].0)
        && m2[rest[i].0] == rest[i].1 by {
        assert(rest[i] == rows[i + 1]);
    }
    assert forall|k: Seq<char>| #[trigger] m2.contains_key(k) implies exists|i: int|
        0 <= i < rest.len() && rest[i].0 == k by {
        let j = choose|j: int| 0 <= j < rows.len() && rows[j].0 == k;
        assert(rest[j - 1].0 == k);
    }
    assert forall|i: int, j: int|
        0 <= i < rest.len() && 0 <= j < rest.len() && i != j implies rest[i].0 != rest[j].0 by {
        assert(rest[i] == rows[i + 1] && rest[j] == rows[j + 1]);
    }
}

/// Two ranked listings of one mapping are the same listing.
proof fn lemma_ranked_unique(
    r1: Seq<(Seq<char>, RecordView)>,
    r2: Seq<(Seq<char>, RecordView)>,
    m: Map<Seq<char>, RecordView>,
)
    requires
        lists(r1, m),
        ranked(r1),
        lists(r2, m),
        ranked(r2),
    ensures
        r1 == r2,
    decreases r1.len(),
{
    if r1.len() == 0 {
        if r2.len() > 0 {
            assert(m.contains_key(r2[0].0));
        }
        assert(r1 =~= r2);
    } else {
        assert(m.contains_key(r1[0].0));
        let j = choose|j: int| 0 <= j < r2.len() && r2[j].0 == r1[0].0;
        assert(m.contains_key(r2[j].0));
        assert(r2[j] == r1[0]);
        assert(m.contains_key(r2[0].0));
        let i = choose|i: int| 0 <= i < r1.len() && r1[i].0 == r2[0].0;
        assert(m.contains_key(r1[i].0));
        assert(r1[i] == r2[0]);
        lemma_rank_cmp_equal(r1[0], r2[0]);
        lemma_rank_cmp_equal(r2[0], r1[0]);
        if j > 0 {
            assert(rank_before(r2[0], r2[j]));
            if i > 0 {
                assert(rank_before(r1[0], r1[i]));
            }
        }
        assert(r1[0] == r2[0]);
        let m2 = m.remove(r1[0].0);
        lemma_lists_drop_first(r1, m);
        lemma_lists_drop_first(r2, m);
        assert forall|a: int, b: int| 0 <= a < b < r1.drop_first().len() implies rank_before(
            #[trigger] r1.drop_first()[a],
            #[trigger] r1.drop_first()[b],
        ) by {
            assert(r1.drop_first()[a] == r1[a + 1] && r1.drop_first()[b] == r1[b + 1]);
        }
        assert forall|a: int, b: int| 0 <= a < b < r2.drop_first().len() implies rank_before(
            #[trigger] r2.drop_first()[a],
            #[trigger] r2.drop_first()[b],
        ) by {
            assert(r2.drop_first()[a] == r2[a + 1] && r2.drop_first()[b] == r2[b + 1]);
        }
        lemma_ranked_unique(r1.drop_first(), r2.drop_first(), m2);
        assert(r1 =~= seq![r1[0]] + r1.drop_first());
        assert(r2 =~= seq![r2[0]] + r2.drop_first());
    }
}

/// Rendering is determined by the mapping alone: two renderings of one
/// mapping are the same text, whatever order its teams were listed in.
pub proof fn law_render_deterministic(m: Map<Seq<char>, RecordView>, t1: Seq<char>, t2: Seq<char>)
    requires
        renders(m, t1),
        renders(m, t2),
    ensures
        t1 == t2,
{
    let r1 = choose|rows: Seq<(Seq<char>, RecordView)>|
        lists(rows, m) && ranked(rows) && t1 == render(rows);
    let r2 = choose|rows: Seq<(Seq<char>, RecordView)>|
        lists(rows, m) && ranked(rows) && t2 == render(rows);
    lemma_ranked_unique(r1, r2, m);
}

/// The table of a mapping with no team is the header line alone.
pub proof fn law_no_team_renders_header(text: Seq<char>)
    requires
        renders(Map::empty(), text),
    ensures
        text == header(),
{
    let rows = choose|rows: Seq<(Seq<char>, RecordView)>|
        lists(rows, Map::empty()) && ranked(rows) && text == render(rows);
    if rows.len() > 0 {
        assert(Map::<Seq<char>, RecordView>::empty().contains_key(rows[0].0));
    }
    assert(rows_text(rows) == Seq::<char>::empty());
    assert(text =~= header());
}

} // verus!
