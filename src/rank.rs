use crate::record::RecordView;
use crate::standings::Team;
use std::cmp::Ordering;
use vstd::prelude::*;

verus! {

/// `a` comes before `b` in lexicographic order of code points; equivalently,
/// of their UTF-8 bytes.
pub open spec fn name_less(a: Seq<char>, b: Seq<char>) -> bool
    decreases a.len(),
{
    if a.len() == 0 {
        b.len() > 0
    } else if b.len() == 0 {
        false
    } else if a[0] != b[0] {
        (a[0] as int) < (b[0] as int)
    } else {
        name_less(a.drop_first(), b.drop_first())
    }
}

/// `x` ranks above `y`: more points, or as many points and a name that comes first.
pub open spec fn rank_before(x: (Seq<char>, RecordView), y: (Seq<char>, RecordView)) -> bool {
    x.1.points() > y.1.points() || (x.1.points() == y.1.points() && name_less(x.0, y.0))
}

/// The ranking as an `Ordering`: `Less` for the team that is listed first.
pub open spec fn rank_cmp(x: (Seq<char>, RecordView), y: (Seq<char>, RecordView)) -> Ordering {
    if rank_before(x, y) {
        Ordering::Less
    } else if rank_before(y, x) {
        Ordering::Greater
    } else {
        Ordering::Equal
    }
}

/// Every row ranks above every later row.
pub open spec fn ranked(rows: Seq<(Seq<char>, RecordView)>) -> bool {
    forall|i: int, j: int| 0 <= i < j < rows.len() ==> rank_before(#[trigger] rows[i], #[trigger] rows[j])
}

pub proof fn lemma_name_less_irreflexive(a: Seq<char>)
    ensures
        !name_less(a, a),
    decreases a.len(),
{
    if a.len() > 0 {
        lemma_name_less_irreflexive(a.drop_first());
    }
}

pub proof fn lemma_name_less_asymmetric(a: Seq<char>, b: Seq<char>)
    ensures
        !(name_less(a, b) && name_less(b, a)),
    decreases a.len(),
{
    if a.len() > 0 && b.len() > 0 && a[0] == b[0] {
        lemma_name_less_asymmetric(a.drop_first(), b.drop_first());
    }
}

pub proof fn lemma_name_less_total(a: Seq<char>, b: Seq<char>)
    ensures
        a != b ==> name_less(a, b) || name_less(b, a),
    decreases a.len(),
{
    if a.len() > 0 && b.len() > 0 && a[0] == b[0] {
        lemma_name_less_total(a.drop_first(), b.drop_first());
        if a.drop_first() == b.drop_first() {
            assert(a =~= seq![a[0]] + a.drop_first());
            assert(b =~= seq![b[0]] + b.drop_first());
        }
    } else if a.len() == 0 && b.len() == 0 {
        assert(a =~= b);
    }
}

pub proof fn lemma_name_less_transitive(a: Seq<char>, b: Seq<char>, c: Seq<char>)
    requires
        name_less(a, b),
        name_less(b, c),
    ensures
        name_less(a, c),
    decreases a.len(),
{
    if a.len() > 0 && b.len() > 0 && c.len() > 0 && a[0] == b[0] && b[0] == c[0] {
        lemma_name_less_transitive(a.drop_first(), b.drop_first(), c.drop_first());
    }
}

/// The ranking is a strict total order on teams with distinct names, so a
/// sort by `rank_cmp` puts them in one order only.
pub proof fn lemma_rank_strict_total_order(
    x: (Seq<char>, RecordView),
    y: (Seq<char>, RecordView),
    z: (Seq<char>, RecordView),
)
    ensures
        !rank_before(x, x),
        rank_before(x, y) && rank_before(y, z) ==> rank_before(x, z),
        x.0 != y.0 ==> rank_before(x, y) || rank_before(y, x),
{
    lemma_name_less_irreflexive(x.0);
    lemma_name_less_total(x.0, y.0);
    if rank_before(x, y) && rank_before(y, z) && x.1.points() == z.1.points() {
        lemma_name_less_transitive(x.0, y.0, z.0);
    }
}

/// Rows that differ in name are never ranked level.
pub proof fn lemma_rank_cmp_equal(x: (Seq<char>, RecordView), y: (Seq<char>, RecordView))
    ensures
        rank_cmp(x, y) == Ordering::Equal ==> x.0 == y.0 && x.1.points() == y.1.points(),
        rank_before(x, y) ==> !rank_before(y, x),
        !rank_before(x, x),
{
    lemma_name_less_total(x.0, y.0);
    lemma_name_less_asymmetric(x.0, y.0);
    lemma_name_less_irreflexive(x.0);
}

/// Compares two names in lexicographic order.
pub fn compare_names(a: &Vec<char>, b: &Vec<char>) -> (r: Ordering)
    ensures
        r == (if name_less(a@, b@) {
            Ordering::Less
        } else if name_less(b@, a@) {
            Ordering::Greater
        } else {
            Ordering::Equal
        }),
{
    let mut i: usize = 0;
    assert(a@.skip(0) =~= a@ && b@.skip(0) =~= b@);
    while i < a.len() && i < b.len()
        invariant
            i <= a.len(),
            i <= b.len(),
            name_less(a@, b@) == name_less(a@.skip(i as int), b@.skip(i as int)),
            name_less(b@, a@) == name_less(b@.skip(i as int), a@.skip(i as int)),
        decreases a.len() - i,
    {
        assert(a@.skip(i as int)[0] == a@[i as int]);
        assert(b@.skip(i as int)[0] == b@[i as int]);
        if a[i] != b[i] {
            if a[i] < b[i] {
                return Ordering::Less;
            } else {
                return Ordering::Greater;
            }
        }
        assert(a@.skip(i as int).drop_first() =~= a@.skip(i + 1));
        assert(b@.skip(i as int).drop_first() =~= b@.skip(i + 1));
        i += 1;
    }
    assert(a@.skip(i as int).len() == a.len() - i);
    assert(b@.skip(i as int).len() == b.len() - i);
    if a.len() < b.len() {
        Ordering::Less
    } else if b.len() < a.len() {
        Ordering::Greater
    } else {
        Ordering::Equal
    }
}

/// Compares two teams by rank: `Less` for the one that is listed first.
pub fn compare_teams(a: &Team, b: &Team) -> (r: Ordering)
    ensures
        r == rank_cmp(a@, b@),
{
    let pa = a.record.points();
    let pb = b.record.points();
    if pa > pb {
        Ordering::Less
    } else if pa < pb {
        Ordering::Greater
    } else {
        compare_names(&a.name, &b.name)
    }
}

} // verus!
