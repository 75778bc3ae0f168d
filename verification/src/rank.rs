//! The ranker: drops the pairs below the threshold and orders the rest.

use crate::overlap::{views_of, Candidate, Duplicate};
use crate::paths::{
    lemma_path_lt_asymmetric, lemma_path_lt_total, lemma_path_lt_transitive, path_lt, path_order,
    PathOrder,
};
use vstd::prelude::*;
use vstd::seq_lib::lemma_multiset_commutative;

verus! {

/// `x` stands before `y` in a ranking: it has the larger intersection, or the
/// same and the pair of paths that sorts first.
pub open spec fn ranks_before(x: Candidate, y: Candidate) -> bool {
    ||| x.intersection > y.intersection
    ||| x.intersection == y.intersection && path_lt(x.dir1, y.dir1)
    ||| x.intersection == y.intersection && x.dir1 == y.dir1 && path_lt(x.dir2, y.dir2)
}

/// No record of `s` should stand before one that precedes it.
pub open spec fn in_rank_order(s: Seq<Candidate>) -> bool {
    forall|i: int, j: int| 0 <= i < j < s.len() ==> !ranks_before(s[j], s[i])
}

/// The intersections of `s` never grow from one record to the next.
pub open spec fn descending(s: Seq<Candidate>) -> bool {
    forall|i: int, j: int| 0 <= i < j < s.len() ==> s[i].intersection >= s[j].intersection
}

/// The records of `s` with an intersection of at least `min_intersection`,
/// in their order.
pub open spec fn at_least(s: Seq<Candidate>, min_intersection: nat) -> Seq<Candidate> {
    s.filter(|c: Candidate| c.intersection >= min_intersection)
}

/// `s` read backwards is in rank order.
spec fn in_reverse_rank_order(s: Seq<Candidate>) -> bool {
    forall|i: int, j: int| 0 <= i < j < s.len() ==> !ranks_before(s[i], s[j])
}

/// No record of `later` should stand before a record of `earlier`.
spec fn all_after(earlier: Seq<Candidate>, later: Seq<Candidate>) -> bool {
    forall|i: int, j: int|
        0 <= i < earlier.len() && 0 <= j < later.len() ==> !ranks_before(
            #[trigger] later[j],
            #[trigger] earlier[i],
        )
}

/// The empty sequence holds nothing.
proof fn lemma_nothing_held()
    ensures
        Seq::<Candidate>::empty().to_multiset() == vstd::multiset::Multiset::<Candidate>::empty(),
{
    let none = Seq::<Candidate>::empty();
    assert forall|c: Candidate| none.to_multiset().count(c) == 0 by {
        vstd::seq_lib::to_multiset_contains(none, c);
    }
    assert(none.to_multiset() =~= vstd::multiset::Multiset::<Candidate>::empty());
}

/// A ranking is in descending order of intersection.
pub proof fn lemma_rank_order_descends(s: Seq<Candidate>)
    requires
        in_rank_order(s),
    ensures
        descending(s),
{
    assert forall|i: int, j: int| 0 <= i < j < s.len() implies s[i].intersection
        >= s[j].intersection by {
        assert(!ranks_before(s[j], s[i]));
    }
}

/// Of two records at most one stands before the other.
pub proof fn lemma_ranks_before_asymmetric(x: Candidate, y: Candidate)
    requires
        ranks_before(x, y),
    ensures
        !ranks_before(y, x),
{
    if path_lt(x.dir1, y.dir1) {
        lemma_path_lt_asymmetric(x.dir1, y.dir1);
    }
    if path_lt(x.dir2, y.dir2) {
        lemma_path_lt_asymmetric(x.dir2, y.dir2);
    }
    if path_lt(y.dir1, x.dir1) {
        lemma_path_lt_asymmetric(y.dir1, x.dir1);
    }
    if path_lt(y.dir2, x.dir2) {
        lemma_path_lt_asymmetric(y.dir2, x.dir2);
    }
}

/// If `x` need not stand after `y`, nor `y` after `z`, then `x` need not
/// stand after `z`.
pub proof fn lemma_rank_order_chains(x: Candidate, y: Candidate, z: Candidate)
    requires
        !ranks_before(y, x),
        !ranks_before(z, y),
    ensures
        !ranks_before(z, x),
{
    lemma_path_lt_total(x.dir1, y.dir1);
    lemma_path_lt_total(y.dir1, z.dir1);
    lemma_path_lt_total(x.dir2, y.dir2);
    lemma_path_lt_total(y.dir2, z.dir2);
    if path_lt(x.dir1, y.dir1) && path_lt(y.dir1, z.dir1) {
        lemma_path_lt_transitive(x.dir1, y.dir1, z.dir1);
    }
    if path_lt(x.dir2, y.dir2) && path_lt(y.dir2, z.dir2) {
        lemma_path_lt_transitive(x.dir2, y.dir2, z.dir2);
    }
    if path_lt(x.dir1, z.dir1) {
        lemma_path_lt_asymmetric(x.dir1, z.dir1);
    }
    if path_lt(x.dir2, z.dir2) {
        lemma_path_lt_asymmetric(x.dir2, z.dir2);
    }
}

/// Whether `a` stands before `b` in a ranking.
pub fn ranks_first(a: &Duplicate, b: &Duplicate) -> (first: bool)
    ensures
        first == ranks_before(a@, b@),
{
    if a.intersection != b.intersection {
        return a.intersection > b.intersection;
    }
    proof {
        if path_lt(a@.dir1, b@.dir1) {
            lemma_path_lt_asymmetric(a@.dir1, b@.dir1);
        }
        if path_lt(a@.dir2, b@.dir2) {
            lemma_path_lt_asymmetric(a@.dir2, b@.dir2);
        }
    }
    match path_order(a.dir1.as_str(), b.dir1.as_str()) {
        PathOrder::Before => true,
        PathOrder::After => false,
        PathOrder::Same => match path_order(a.dir2.as_str(), b.dir2.as_str()) {
            PathOrder::Before => true,
            _ => false,
        },
    }
}

/// Takes the last record off `items`.
fn take_last(items: &mut Vec<Duplicate>) -> (last: Duplicate)
    requires
        old(items).len() > 0,
    ensures
        final(items)@ == old(items)@.drop_last(),
        last == old(items)@.last(),
        views_of(final(items)@) == views_of(old(items)@).drop_last(),
        last@ == views_of(old(items)@).last(),
        views_of(old(items)@).to_multiset() == views_of(final(items)@).to_multiset().insert(last@),
{
    let ghost before = items@;
    let last = items.pop().unwrap();
    proof {
        assert(views_of(items@) =~= views_of(before).drop_last());
        assert(views_of(before) =~= views_of(items@).push(last@));
        vstd::seq_lib::to_multiset_build(views_of(items@), last@);
    }
    last
}

/// Puts `d` at the end of `items`.
fn put_last(items: &mut Vec<Duplicate>, d: Duplicate)
    ensures
        final(items)@ == old(items)@.push(d),
        views_of(final(items)@) == views_of(old(items)@).push(d@),
        views_of(final(items)@).to_multiset() == views_of(old(items)@).to_multiset().insert(d@),
{
    let ghost before = items@;
    items.push(d);
    proof {
        assert(views_of(items@) =~= views_of(before).push(d@));
        vstd::seq_lib::to_multiset_build(views_of(before), d@);
    }
}

/// Merges two rankings into one.
fn merge(left: Vec<Duplicate>, right: Vec<Duplicate>) -> (merged: Vec<Duplicate>)
    requires
        in_rank_order(views_of(left@)),
        in_rank_order(views_of(right@)),
    ensures
        in_rank_order(views_of(merged@)),
        views_of(merged@).to_multiset() == views_of(left@).to_multiset().add(
            views_of(right@).to_multiset(),
        ),
{
    let ghost total = views_of(left@).to_multiset().add(views_of(right@).to_multiset());
    let mut left = left;
    let mut right = right;
    let mut back: Vec<Duplicate> = Vec::new();
    proof {
        lemma_nothing_held();
        assert(views_of(back@) =~= Seq::<Candidate>::empty());
        assert(views_of(back@).to_multiset().add(views_of(left@).to_multiset()).add(
            views_of(right@).to_multiset(),
        ) =~= total);
    }
    while left.len() > 0 || right.len() > 0
        invariant
            in_rank_order(views_of(left@)),
            in_rank_order(views_of(right@)),
            in_reverse_rank_order(views_of(back@)),
            all_after(views_of(left@), views_of(back@)),
            all_after(views_of(right@), views_of(back@)),
            views_of(back@).to_multiset().add(views_of(left@).to_multiset()).add(
                views_of(right@).to_multiset(),
            ) == total,
        decreases left.len() + right.len(),
    {
        let ghost l = views_of(left@);
        let ghost r = views_of(right@);
        let ghost b = views_of(back@);
        let from_right = if left.len() == 0 {
            true
        } else if right.len() == 0 {
            false
        } else {
            ranks_first(&left[left.len() - 1], &right[right.len() - 1])
        };
        if from_right {
            let d = take_last(&mut right);
            put_last(&mut back, d);
            proof {
                let r1 = views_of(right@);
                let b1 = views_of(back@);
                assert forall|i: int, j: int| 0 <= i < j < b1.len() implies !ranks_before(
                    b1[i],
                    b1[j],
                ) by {
                    if j == b.len() {
                        assert(!ranks_before(b[i], r[r.len() - 1]));
                    } else {
                        assert(!ranks_before(b[i], b[j]));
                    }
                }
                assert forall|i: int, j: int| 0 <= i < r1.len() && 0 <= j < b1.len() implies !ranks_before(
                    #[trigger] b1[j],
                    #[trigger] r1[i],
                ) by {
                    if j == b.len() {
                        assert(!ranks_before(r[r.len() - 1], r[i]));
                    } else {
                        assert(!ranks_before(b[j], r[i]));
                    }
                }
                assert forall|i: int, j: int| 0 <= i < l.len() && 0 <= j < b1.len() implies !ranks_before(
                    #[trigger] b1[j],
                    #[trigger] l[i],
                ) by {
                    if j == b.len() {
                        let last = l[l.len() - 1];
                        lemma_ranks_before_asymmetric(last, d@);
                        if i < l.len() - 1 {
                            assert(!ranks_before(last, l[i]));
                        }
                        lemma_rank_order_chains(l[i], last, d@);
                    } else {
                        assert(!ranks_before(b[j], l[i]));
                    }
                }
                assert(in_rank_order(r1)) by {
                    assert forall|i: int, j: int| 0 <= i < j < r1.len() implies !ranks_before(
                        r1[j],
                        r1[i],
                    ) by {
                        assert(!ranks_before(r[j], r[i]));
                    }
                }
                assert(b1.to_multiset().add(l.to_multiset()).add(r1.to_multiset()) =~= total);
            }
        } else {
            let d = take_last(&mut left);
            put_last(&mut back, d);
            proof {
                let l1 = views_of(left@);
                let b1 = views_of(back@);
                assert forall|i: int, j: int| 0 <= i < j < b1.len() implies !ranks_before(
                    b1[i],
                    b1[j],
                ) by {
                    if j == b.len() {
                        assert(!ranks_before(b[i], l[l.len() - 1]));
                    } else {
                        assert(!ranks_before(b[i], b[j]));
                    }
                }
                assert forall|i: int, j: int| 0 <= i < l1.len() && 0 <= j < b1.len() implies !ranks_before(
                    #[trigger] b1[j],
                    #[trigger] l1[i],
                ) by {
                    if j == b.len() {
                        assert(!ranks_before(l[l.len() - 1], l[i]));
                    } else {
                        assert(!ranks_before(b[j], l[i]));
                    }
                }
                assert forall|i: int, j: int| 0 <= i < r.len() && 0 <= j < b1.len() implies !ranks_before(
                    #[trigger] b1[j],
                    #[trigger] r[i],
                ) by {
                    if j == b.len() {
                        let last = r[r.len() - 1];
                        if i < r.len() - 1 {
                            assert(!ranks_before(last, r[i]));
                        }
                        lemma_rank_order_chains(r[i], last, d@);
                    } else {
                        assert(!ranks_before(b[j], r[i]));
                    }
                }
                assert(in_rank_order(l1)) by {
                    assert forall|i: int, j: int| 0 <= i < j < l1.len() implies !ranks_before(
                        l1[j],
                        l1[i],
                    ) by {
                        assert(!ranks_before(l[j], l[i]));
                    }
                }
                assert(b1.to_multiset().add(l1.to_multiset()).add(r.to_multiset()) =~= total);
            }
        }
    }
    let mut merged: Vec<Duplicate> = Vec::new();
    proof {
        lemma_nothing_held();
        assert(views_of(left@) =~= Seq::<Candidate>::empty());
        assert(views_of(right@) =~= Seq::<Candidate>::empty());
        assert(views_of(merged@) =~= Seq::<Candidate>::empty());
        assert(views_of(merged@).to_multiset().add(views_of(back@).to_multiset()) =~= total);
    }
    while back.len() > 0
        invariant
            in_rank_order(views_of(merged@)),
            in_reverse_rank_order(views_of(back@)),
            all_after(views_of(merged@), views_of(back@)),
            views_of(merged@).to_multiset().add(views_of(back@).to_multiset()) == total,
        decreases back.len(),
    {
        let ghost m = views_of(merged@);
        let ghost b = views_of(back@);
        let d = take_last(&mut back);
        put_last(&mut merged, d);
        proof {
            let m1 = views_of(merged@);
            let b1 = views_of(back@);
            assert forall|i: int, j: int| 0 <= i < j < m1.len() implies !ranks_before(m1[j], m1[i]) by {
                if j == m.len() {
                    assert(!ranks_before(b[b.len() - 1], m[i]));
                } else {
                    assert(!ranks_before(m[j], m[i]));
                }
            }
            assert forall|i: int, j: int| 0 <= i < j < b1.len() implies !ranks_before(b1[i], b1[j]) by {
                assert(!ranks_before(b[i], b[j]));
            }
            assert forall|i: int, j: int| 0 <= i < m1.len() && 0 <= j < b1.len() implies !ranks_before(
                #[trigger] b1[j],
                #[trigger] m1[i],
            ) by {
                if i == m.len() {
                    assert(!ranks_before(b[j], b[b.len() - 1]));
                } else {
                    assert(!ranks_before(b[j], m[i]));
                }
            }
            assert(m1.to_multiset().add(b1.to_multiset()) =~= total);
        }
    }
    proof {
        lemma_nothing_held();
        assert(views_of(back@) =~= Seq::<Candidate>::empty());
        assert(views_of(merged@).to_multiset().add(views_of(back@).to_multiset()) =~= views_of(
            merged@,
        ).to_multiset());
    }
    merged
}

/// Puts `items` in rank order.
pub fn sort_ranked(items: Vec<Duplicate>) -> (sorted: Vec<Duplicate>)
    ensures
        in_rank_order(views_of(sorted@)),
        views_of(sorted@).to_multiset() == views_of(items@).to_multiset(),
    decreases items.len(),
{
    let mut left = items;
    if left.len() <= 1 {
        return left;
    }
    let ghost all = views_of(left@);
    let right = left.split_off(left.len() / 2);
    proof {
        assert(all =~= views_of(left@) + views_of(right@));
        lemma_multiset_commutative(views_of(left@), views_of(right@));
    }
    let left = sort_ranked(left);
    let right = sort_ranked(right);
    merge(left, right)
}

/// The ranking of `candidates`: those with an intersection of at least
/// `min_intersection`, the larger intersection first, and among equal
/// intersections the pair of paths that sorts first.
pub fn rank(candidates: Vec<Duplicate>, min_intersection: usize) -> (ranking: Vec<Duplicate>)
    ensures
        in_rank_order(views_of(ranking@)),
        descending(views_of(ranking@)),
        views_of(ranking@).to_multiset() == at_least(
            views_of(candidates@),
            min_intersection as nat,
        ).to_multiset(),
{
    let ghost wanted = |c: Candidate| c.intersection >= min_intersection as nat;
    let ghost goal = views_of(candidates@).filter(wanted).to_multiset();
    let mut rest = candidates;
    let mut kept: Vec<Duplicate> = Vec::new();
    proof {
        lemma_nothing_held();
        assert(views_of(kept@) =~= Seq::<Candidate>::empty());
        assert(views_of(kept@).to_multiset().add(views_of(rest@).filter(wanted).to_multiset()) =~= goal);
    }
    while rest.len() > 0
        invariant
            wanted == |c: Candidate| c.intersection >= min_intersection as nat,
            views_of(kept@).to_multiset().add(views_of(rest@).filter(wanted).to_multiset()) == goal,
        decreases rest.len(),
    {
        let ghost r = views_of(rest@);
        let ghost k = views_of(kept@);
        let d = take_last(&mut rest);
        proof {
            reveal(Seq::filter);
            assert(r.filter(wanted) == if wanted(d@) {
                r.drop_last().filter(wanted).push(d@)
            } else {
                r.drop_last().filter(wanted)
            });
            vstd::seq_lib::to_multiset_build(r.drop_last().filter(wanted), d@);
        }
        if d.intersection >= min_intersection {
            put_last(&mut kept, d);
            proof {
                assert(views_of(kept@).to_multiset().add(
                    views_of(rest@).filter(wanted).to_multiset(),
                ) =~= goal);
            }
        }
    }
    proof {
        reveal(Seq::filter);
        lemma_nothing_held();
        assert(views_of(rest@).filter(wanted) =~= Seq::<Candidate>::empty());
        assert(views_of(kept@).to_multiset().add(views_of(rest@).filter(wanted).to_multiset())
            =~= views_of(kept@).to_multiset());
    }
    let ranking = sort_ranked(kept);
    proof {
        lemma_rank_order_descends(views_of(ranking@));
    }
    ranking
}

} // verus!
