//! Grouping keys of flow-entry callsites: lists of (argument position, roots)
//! pairs, kept sorted in lexicographic order so that two keys with the same
//! pairs are equal.

use vstd::prelude::*;
use vstd::relations::{sorted_by, total_ordering};

verus! {

broadcast use vstd::seq_lib::group_to_multiset_ensures;

/// Lexicographic order on lists of numbers; a proper prefix comes first.
pub open spec fn seq_lex_le(a: Seq<usize>, b: Seq<usize>) -> bool
    decreases a.len(),
{
    if a.len() == 0 {
        true
    } else if b.len() == 0 {
        false
    } else if a[0] < b[0] {
        true
    } else if a[0] > b[0] {
        false
    } else {
        seq_lex_le(a.drop_first(), b.drop_first())
    }
}

/// The order of key parts: by argument position, then by roots.
pub open spec fn part_le(a: (usize, Seq<usize>), b: (usize, Seq<usize>)) -> bool {
    a.0 < b.0 || (a.0 == b.0 && seq_lex_le(a.1, b.1))
}

pub open spec fn part_leq() -> spec_fn((usize, Seq<usize>), (usize, Seq<usize>)) -> bool {
    |a: (usize, Seq<usize>), b: (usize, Seq<usize>)| part_le(a, b)
}

proof fn lemma_lex_refl(a: Seq<usize>)
    ensures
        seq_lex_le(a, a),
    decreases a.len(),
{
    if a.len() > 0 {
        lemma_lex_refl(a.drop_first());
    }
}

proof fn lemma_lex_antisym(a: Seq<usize>, b: Seq<usize>)
    requires
        seq_lex_le(a, b),
        seq_lex_le(b, a),
    ensures
        a == b,
    decreases a.len(),
{
    if a.len() == 0 {
        assert(b.len() == 0);
        assert(a =~= b);
    } else {
        lemma_lex_antisym(a.drop_first(), b.drop_first());
        assert(a =~= seq![a[0]] + a.drop_first());
        assert(b =~= seq![b[0]] + b.drop_first());
    }
}

proof fn lemma_lex_trans(a: Seq<usize>, b: Seq<usize>, c: Seq<usize>)
    requires
        seq_lex_le(a, b),
        seq_lex_le(b, c),
    ensures
        seq_lex_le(a, c),
    decreases a.len(),
{
    if a.len() > 0 && b.len() > 0 && c.len() > 0 && a[0] == b[0] && b[0] == c[0] {
        lemma_lex_trans(a.drop_first(), b.drop_first(), c.drop_first());
    }
}

proof fn lemma_lex_total(a: Seq<usize>, b: Seq<usize>)
    ensures
        seq_lex_le(a, b) || seq_lex_le(b, a),
    decreases a.len(),
{
    if a.len() > 0 && b.len() > 0 && a[0] == b[0] {
        lemma_lex_total(a.drop_first(), b.drop_first());
    }
}

/// The order of key parts is a total order.
pub proof fn lemma_part_total_ordering()
    ensures
        total_ordering(part_leq()),
{
    let r = part_leq();
    assert forall|x: (usize, Seq<usize>)| #[trigger] r(x, x) by {
        lemma_lex_refl(x.1);
    }
    assert forall|x: (usize, Seq<usize>), y: (usize, Seq<usize>)| #[trigger] r(x, y) && #[trigger] r(y, x) implies x == y by {
        if x.0 == y.0 {
            lemma_lex_antisym(x.1, y.1);
        }
    }
    assert forall|x: (usize, Seq<usize>), y: (usize, Seq<usize>), z: (usize, Seq<usize>)|
        #[trigger] r(x, y) && #[trigger] r(y, z) implies r(x, z) by {
        if x.0 == y.0 && y.0 == z.0 {
            lemma_lex_trans(x.1, y.1, z.1);
        }
    }
    assert forall|x: (usize, Seq<usize>), y: (usize, Seq<usize>)| #[trigger] r(x, y) || #[trigger] r(y, x) by {
        if x.0 == y.0 {
            lemma_lex_total(x.1, y.1);
        }
    }
}

/// The parts as plain values.
pub open spec fn parts_view(v: Seq<(usize, Vec<usize>)>) -> Seq<(usize, Seq<usize>)> {
    v.map_values(|p: (usize, Vec<usize>)| (p.0, p.1@))
}

/// Whether list `a` comes before or equals list `b` lexicographically.
pub fn lex_le(a: &Vec<usize>, b: &Vec<usize>) -> (r: bool)
    ensures
        r == seq_lex_le(a@, b@),
{
    let mut i: usize = 0;
    proof {
        assert(a@.skip(0) =~= a@);
        assert(b@.skip(0) =~= b@);
    }
    while i < a.len() && i < b.len() && a[i] == b[i]
        invariant
            0 <= i <= a@.len(),
            i <= b@.len(),
            forall|j: int| 0 <= j < i ==> a@[j] == b@[j],
            seq_lex_le(a@, b@) == seq_lex_le(a@.skip(i as int), b@.skip(i as int)),
        decreases a.len() - i,
    {
        proof {
            assert(a@.skip(i as int).drop_first() =~= a@.skip(i + 1));
            assert(b@.skip(i as int).drop_first() =~= b@.skip(i + 1));
        }
        i += 1;
    }
    if i == a.len() {
        true
    } else if i == b.len() {
        false
    } else {
        a[i] < b[i]
    }
}

/// Whether part `a` comes before or equals part `b`.
pub fn part_le_exec(a: &(usize, Vec<usize>), b: &(usize, Vec<usize>)) -> (r: bool)
    ensures
        r == part_le((a.0, a.1@), (b.0, b.1@)),
{
    a.0 < b.0 || (a.0 == b.0 && lex_le(&a.1, &b.1))
}

/// A copy of a part.
fn copy_part(p: &(usize, Vec<usize>)) -> (r: (usize, Vec<usize>))
    ensures
        r.0 == p.0,
        r.1@ == p.1@,
{
    (p.0, p.1.clone())
}

/// The parts sorted by `part_le`.
pub fn sort_parts(v: &Vec<(usize, Vec<usize>)>) -> (r: Vec<(usize, Vec<usize>)>)
    ensures
        sorted_by(parts_view(r@), part_leq()),
        parts_view(r@).to_multiset() == parts_view(v@).to_multiset(),
{
    proof {
        lemma_part_total_ordering();
    }
    let mut r: Vec<(usize, Vec<usize>)> = Vec::new();
    let mut i: usize = 0;
    while i < v.len()
        invariant
            0 <= i <= v@.len(),
            total_ordering(part_leq()),
            sorted_by(parts_view(r@), part_leq()),
            parts_view(r@).to_multiset() == parts_view(v@.subrange(0, i as int)).to_multiset(),
        decreases v.len() - i,
    {
        let x = copy_part(&v[i]);
        let ghost xv = (x.0, x.1@);
        let mut k: usize = 0;
        while k < r.len() && part_le_exec(&r[k], &x)
            invariant
                0 <= k <= r@.len(),
                xv == (x.0, x.1@),
                forall|j: int| 0 <= j < k ==> part_le(parts_view(r@)[j], xv),
            decreases r.len() - k,
        {
            proof {
                assert(parts_view(r@)[k as int] == (r@[k as int].0, r@[k as int].1@));
            }
            k += 1;
        }
        let ghost old_r = parts_view(r@);
        r.insert(k, x);
        proof {
            assert(parts_view(r@) =~= old_r.insert(k as int, xv));
            old_r.insert_ensures(k as int, xv);
            let nr = parts_view(r@);
            let leq = part_leq();
            assert forall|a: int, b: int| 0 <= a < b < nr.len() implies #[trigger] leq(nr[a], nr[b]) by {
                if b < k {
                    assert(nr[a] == old_r[a] && nr[b] == old_r[b]);
                } else if b == k {
                    assert(nr[a] == old_r[a]);
                } else if a < k {
                    assert(nr[a] == old_r[a] && nr[b] == old_r[b - 1]);
                    assert(leq(old_r[a], xv));
                    if k < old_r.len() {
                        assert(!leq(old_r[k as int], xv));
                        assert(leq(xv, old_r[k as int]));
                        if b - 1 > k {
                            assert(leq(old_r[k as int], old_r[b - 1]));
                        }
                        assert(leq(xv, old_r[b - 1]));
                    }
                } else if a == k {
                    assert(nr[b] == old_r[b - 1]);
                    assert(!leq(old_r[k as int], xv));
                    assert(leq(xv, old_r[k as int]));
                    if b - 1 > k {
                        assert(leq(old_r[k as int], old_r[b - 1]));
                    }
                } else {
                    assert(nr[a] == old_r[a - 1] && nr[b] == old_r[b - 1]);
                }
            }
            assert(v@.subrange(0, i + 1) =~= v@.subrange(0, i as int).push(v@[i as int]));
            assert(parts_view(v@.subrange(0, i + 1)) =~= parts_view(v@.subrange(0, i as int)).push(xv));
        }
        i += 1;
    }
    proof {
        assert(v@.subrange(0, v@.len() as int) =~= v@);
    }
    r
}

/// Whether two keys hold the same parts in the same order.
pub fn parts_eq(a: &Vec<(usize, Vec<usize>)>, b: &Vec<(usize, Vec<usize>)>) -> (r: bool)
    ensures
        r == (parts_view(a@) == parts_view(b@)),
{
    if a.len() != b.len() {
        proof {
            assert(parts_view(a@).len() != parts_view(b@).len());
        }
        return false;
    }
    let mut i: usize = 0;
    while i < a.len()
        invariant
            0 <= i <= a@.len(),
            a@.len() == b@.len(),
            forall|j: int| 0 <= j < i ==> parts_view(a@)[j] == parts_view(b@)[j],
        decreases a.len() - i,
    {
        if a[i].0 != b[i].0 || !vec_usize_eq(&a[i].1, &b[i].1) {
            proof {
                assert(parts_view(a@)[i as int] != parts_view(b@)[i as int]);
            }
            return false;
        }
        i += 1;
    }
    proof {
        assert(parts_view(a@) =~= parts_view(b@));
    }
    true
}

/// Whether two lists of numbers are equal.
pub fn vec_usize_eq(a: &Vec<usize>, b: &Vec<usize>) -> (r: bool)
    ensures
        r == (a@ == b@),
{
    if a.len() != b.len() {
        return false;
    }
    let mut i: usize = 0;
    while i < a.len()
        invariant
            0 <= i <= a@.len(),
            a@.len() == b@.len(),
            forall|j: int| 0 <= j < i ==> a@[j] == b@[j],
        decreases a.len() - i,
    {
        if a[i] != b[i] {
            return false;
        }
        i += 1;
    }
    proof {
        assert(a@ =~= b@);
    }
    true
}

/// Two keys sorted by `part_le` are equal exactly when they hold the same parts.
pub proof fn lemma_sorted_keys_eq(a: Seq<(usize, Seq<usize>)>, b: Seq<(usize, Seq<usize>)>)
    requires
        sorted_by(a, part_leq()),
        sorted_by(b, part_leq()),
    ensures
        (a == b) == (a.to_multiset() == b.to_multiset()),
{
    lemma_part_total_ordering();
    if a.to_multiset() == b.to_multiset() {
        vstd::seq_lib::lemma_sorted_unique(a, b, part_leq());
    }
}

} // verus!
