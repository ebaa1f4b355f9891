use crate::parse::chars_of;
use crate::record::RecordView;
use crate::standings::Team;
use vstd::prelude::*;

verus! {

/// `k` spaces.
pub open spec fn spaces(k: nat) -> Seq<char> {
    Seq::new(k, |i: int| ' ')
}

/// `s` followed by spaces up to `width` characters; never cut.
pub open spec fn pad_right(s: Seq<char>, width: nat) -> Seq<char> {
    if s.len() < width {
        s + spaces((width - s.len()) as nat)
    } else {
        s
    }
}

/// `s` preceded by spaces up to `width` characters; never cut.
pub open spec fn pad_left(s: Seq<char>, width: nat) -> Seq<char> {
    if s.len() < width {
        spaces((width - s.len()) as nat) + s
    } else {
        s
    }
}

/// The decimal digit for `d`, below ten.
pub open spec fn digit(d: nat) -> char {
    (48 + d) as char
}

/// The decimal notation of `n`, without leading zeros.
pub open spec fn dec(n: nat) -> Seq<char>
    decreases n,
{
    if n < 10 {
        seq![digit(n)]
    } else {
        dec(n / 10).push(digit(n % 10))
    }
}

/// The header line of the table.
pub open spec fn header() -> Seq<char> {
    pad_right("Team"@, 31) + "| MP |  W |  D |  L |  P"@
}

/// One row of the table, led by its line break: name, games played, wins,
/// draws, losses and points.
pub open spec fn row_line(row: (Seq<char>, RecordView)) -> Seq<char> {
    let r = row.1;
    seq!['\n'] + pad_right(row.0, 30) + " | "@ + pad_left(dec(r.matches_played()), 2) + " | "@
        + pad_left(dec(r.wins), 2) + " | "@ + pad_left(dec(r.draws), 2) + " | "@ + pad_left(
        dec(r.losses),
        2,
    ) + " | "@ + pad_left(dec(r.points()), 2)
}

/// The rows of the table, in the order given.
pub open spec fn rows_text(rows: Seq<(Seq<char>, RecordView)>) -> Seq<char>
    decreases rows.len(),
{
    if rows.len() == 0 {
        Seq::empty()
    } else {
        rows_text(rows.drop_last()) + row_line(rows.last())
    }
}

/// The table for rows in the order given.
pub open spec fn render(rows: Seq<(Seq<char>, RecordView)>) -> Seq<char> {
    header() + rows_text(rows)
}

/// Appends `s`.
fn push_all(out: &mut Vec<char>, s: &Vec<char>)
    ensures
        final(out)@ == old(out)@ + s@,
{
    let mut i: usize = 0;
    while i < s.len()
        invariant
            i <= s.len(),
            out@ == old(out)@ + s@.take(i as int),
        decreases s.len() - i,
    {
        out.push(s[i]);
        i += 1;
        assert(old(out)@ + s@.take(i as int) =~= old(out)@ + s@.take(i - 1) + seq![s@[i - 1]]);
    }
    assert(s@.take(s.len() as int) =~= s@);
}

/// Appends `k` spaces.
fn push_spaces(out: &mut Vec<char>, k: usize)
    ensures
        final(out)@ == old(out)@ + spaces(k as nat),
{
    let mut i: usize = 0;
    while i < k
        invariant
            i <= k,
            out@ =~= old(out)@ + spaces(i as nat),
        decreases k - i,
    {
        out.push(' ');
        i += 1;
        assert(out@ =~= old(out)@ + spaces(i as nat));
    }
}

/// Appends `s` padded on the right to `width`.
fn push_left_aligned(out: &mut Vec<char>, s: &Vec<char>, width: usize)
    ensures
        final(out)@ == old(out)@ + pad_right(s@, width as nat),
{
    push_all(out, s);
    if s.len() < width {
        push_spaces(out, width - s.len());
    }
    assert(final(out)@ =~= old(out)@ + pad_right(s@, width as nat)) by {
        if s.len() < width {
            assert(old(out)@ + s@ + spaces((width - s.len()) as nat) =~= old(out)@ + (s@ + spaces(
                (width - s.len()) as nat,
            )));
        }
    }
}

/// Appends `s` padded on the left to `width`.
fn push_right_aligned(out: &mut Vec<char>, s: &Vec<char>, width: usize)
    ensures
        final(out)@ == old(out)@ + pad_left(s@, width as nat),
{
    let ghost start = out@;
    if s.len() < width {
        push_spaces(out, width - s.len());
    }
    push_all(out, s);
    assert(out@ =~= start + pad_left(s@, width as nat));
}

/// Appends the decimal notation of `n`.
fn push_decimal(out: &mut Vec<char>, n: u128)
    ensures
        final(out)@ == old(out)@ + dec(n as nat),
    decreases n,
{
    if n >= 10 {
        push_decimal(out, n / 10);
    }
    let d: u8 = (n % 10) as u8;
    out.push((d + 48) as char);
    assert(final(out)@ =~= old(out)@ + dec(n as nat));
}

/// Appends the decimal notation of `n`, padded on the left to width two.
fn push_count(out: &mut Vec<char>, n: u128)
    ensures
        final(out)@ == old(out)@ + pad_left(dec(n as nat), 2),
{
    let mut digits: Vec<char> = Vec::new();
    push_decimal(&mut digits, n);
    assert(digits@ =~= dec(n as nat));
    push_right_aligned(out, &digits, 2);
}

/// Appends the table's header line.
pub fn push_header(out: &mut Vec<char>)
    ensures
        final(out)@ == old(out)@ + header(),
{
    let ghost start = out@;
    let team = chars_of("Team");
    push_left_aligned(out, &team, 31);
    let columns = chars_of("| MP |  W |  D |  L |  P");
    push_all(out, &columns);
    assert(out@ =~= start + header());
}

/// Appends the row of one team, led by a line break.
pub fn push_row(out: &mut Vec<char>, team: &Team)
    ensures
        final(out)@ == old(out)@ + row_line(team@),
{
    let ghost start = out@;
    let r = team.record;
    let sep = chars_of(" | ");
    out.push('\n');
    push_left_aligned(out, &team.name, 30);
    push_all(out, &sep);
    push_count(out, r.matches_played());
    push_all(out, &sep);
    push_count(out, r.wins as u128);
    push_all(out, &sep);
    push_count(out, r.draws as u128);
    push_all(out, &sep);
    push_count(out, r.losses as u128);
    push_all(out, &sep);
    push_count(out, r.points());
    assert(out@ =~= start + row_line(team@));
}

} // verus!
