use crate::parse::{parse_line_spec, split_on, Outcome};
use crate::record::RecordView;
use crate::standings::{credit, lists, record_games_spec, tally_lines};
use vstd::prelude::*;

verus! {

/// The sum of `f` over the rows.
pub open spec fn total(
    rows: Seq<(Seq<char>, RecordView)>,
    f: spec_fn(RecordView) -> nat,
) -> nat
    decreases rows.len(),
{
    if rows.len() == 0 {
        0
    } else {
        total(rows.drop_last(), f) + f(rows.last().1)
    }
}

proof fn lemma_total_update(
    rows: Seq<(Seq<char>, RecordView)>,
    f: spec_fn(RecordView) -> nat,
    j: int,
    x: (Seq<char>, RecordView),
)
    requires
        0 <= j < rows.len(),
    ensures
        total(rows.update(j, x), f) + f(rows[j].1) == total(rows, f) + f(x.1),
    decreases rows.len(),
{
    if j < rows.len() - 1 {
        assert(rows.update(j, x).drop_last() =~= rows.drop_last().update(j, x));
        lemma_total_update(rows.drop_last(), f, j, x);
    } else {
        assert(rows.update(j, x).drop_last() =~= rows.drop_last());
    }
}

proof fn lemma_total_remove(rows: Seq<(Seq<char>, RecordView)>, f: spec_fn(RecordView) -> nat, j: int)
    requires
        0 <= j < rows.len(),
    ensures
        total(rows.remove(j), f) + f(rows[j].1) == total(rows, f),
    decreases rows.len(),
{
    if j < rows.len() - 1 {
        assert(rows.remove(j).drop_last() =~= rows.drop_last().remove(j));
        lemma_total_remove(rows.drop_last(), f, j);
    } else {
        assert(rows.remove(j) =~= rows.drop_last());
    }
}

/// From a listing of `m` after a credit to `t`, a listing of `m` before it,
/// whose sums are smaller by the credit.
proof fn lemma_uncredit(
    rows: Seq<(Seq<char>, RecordView)>,
    m: Map<Seq<char>, RecordView>,
    t: Seq<char>,
    w: nat,
    l: nat,
    d: nat,
) -> (prev: Seq<(Seq<char>, RecordView)>)
    requires
        lists(rows, credit(m, t, w, l, d)),
    ensures
        lists(prev, m),
        total(prev, |r: RecordView| r.wins) + w == total(rows, |r: RecordView| r.wins),
        total(prev, |r: RecordView| r.losses) + l == total(rows, |r: RecordView| r.losses),
        total(prev, |r: RecordView| r.draws) + d == total(rows, |r: RecordView| r.draws),
{
    let m2 = credit(m, t, w, l, d);
    assert(m2.contains_key(t));
    let j = choose|j: int| 0 <= j < rows.len() && rows[j].0 == t;
    assert(m2.contains_key(rows[j].0));
    let fw = |r: RecordView| r.wins;
    let fl = |r: RecordView| r.losses;
    let fd = |r: RecordView| r.draws;
    if m.contains_key(t) {
        let prev = rows.update(j, (t, m[t]));
        lemma_total_update(rows, fw, j, (t, m[t]));
        lemma_total_update(rows, fl, j, (t, m[t]));
        lemma_total_update(rows, fd, j, (t, m[t]));
        assert forall|i: int| 0 <= i < prev.len() implies m.contains_key(#[trigger] prev[i].0)
            && m[prev[i].0] == prev[i].1 by {
            if i != j {
                assert(m2.contains_key(rows[i].0));
            }
        }
        assert forall|k: Seq<char>| #[trigger] m.contains_key(k) implies exists|i: int|
            0 <= i < prev.len() && prev[i].0 == k by {
            assert(m2.contains_key(k));
            let i = choose|i: int| 0 <= i < rows.len() && rows[i].0 == k;
            assert(prev[i].0 == k);
        }
        prev
    } else {
        let prev = rows.remove(j);
        lemma_total_remove(rows, fw, j);
        lemma_total_remove(rows, fl, j);
        lemma_total_remove(rows, fd, j);
        assert forall|i: int| 0 <= i < prev.len() implies m.contains_key(#[trigger] prev[i].0)
            && m[prev[i].0] == prev[i].1 by {
            let i2 = if i < j { i } else { i + 1 };
            assert(prev[i] == rows[i2]);
            assert(m2.contains_key(rows[i2].0));
        }
        assert forall|k: Seq<char>| #[trigger] m.contains_key(k) implies exists|i: int|
            0 <= i < prev.len() && prev[i].0 == k by {
            assert(m2.contains_key(k));
            let i = choose|i: int| 0 <= i < rows.len() && rows[i].0 == k;
            if i < j {
                assert(prev[i].0 == k);
            } else {
                assert(prev[i - 1].0 == k);
            }
        }
        assert forall|a: int, b: int|
            0 <= a < prev.len() && 0 <= b < prev.len() && a != b implies prev[a].0 != prev[b].0 by {
            let a2 = if a < j { a } else { a + 1 };
            let b2 = if b < j { b } else { b + 1 };
            assert(prev[a] == rows[a2] && prev[b] == rows[b2]);
        }
        prev
    }
}

/// Over any listing of the records that lines give, wins and losses balance
/// and draws are even.
proof fn lemma_tally_lines_balance(lines: Seq<Seq<char>>, rows: Seq<(Seq<char>, RecordView)>)
    requires
        tally_lines(lines) is Ok,
        lists(rows, tally_lines(lines)->Ok_0),
    ensures
        total(rows, |r: RecordView| r.wins) == total(rows, |r: RecordView| r.losses),
        total(rows, |r: RecordView| r.draws) % 2 == 0,
    decreases lines.len(),
{
    if lines.len() == 0 {
        if rows.len() > 0 {
            assert(Map::<Seq<char>, RecordView>::empty().contains_key(rows[0].0));
        }
    } else {
        let m = tally_lines(lines.drop_last())->Ok_0;
        if lines.last().len() == 0 {
            lemma_tally_lines_balance(lines.drop_last(), rows);
        } else {
            let g = parse_line_spec(lines.last())->Ok_0;
            let (h, a, o) = (g.0, g.1, g.2);
            let prev = match o {
                Outcome::Win => {
                    let p1 = lemma_uncredit(rows, credit(m, h, 1, 0, 0), a, 0, 1, 0);
                    lemma_uncredit(p1, m, h, 1, 0, 0)
                },
                Outcome::Loss => {
                    let p1 = lemma_uncredit(rows, credit(m, h, 0, 1, 0), a, 1, 0, 0);
                    lemma_uncredit(p1, m, h, 0, 1, 0)
                },
                Outcome::Draw => {
                    let p1 = lemma_uncredit(rows, credit(m, h, 0, 0, 1), a, 0, 0, 1);
                    lemma_uncredit(p1, m, h, 0, 0, 1)
                },
            };
            lemma_tally_lines_balance(lines.drop_last(), prev);
        }
    }
}

/// Over any listing of the records that a block of match results gives, the
/// wins add up to the losses, and the draws to an even number: each game
/// gives one side a win and the other a loss, or both sides a draw.
pub proof fn law_totals_balance(input: Seq<char>, rows: Seq<(Seq<char>, RecordView)>)
    requires
        record_games_spec(input) is Ok,
        lists(rows, record_games_spec(input)->Ok_0),
    ensures
        total(rows, |r: RecordView| r.wins) == total(rows, |r: RecordView| r.losses),
        total(rows, |r: RecordView| r.draws) % 2 == 0,
{
    lemma_tally_lines_balance(split_on(input, '\n'), rows);
}

} // verus!
