//! The overlap finder: every pair of directories that shares a fingerprint,
//! once, with the exact size of what they share.

use crate::index::{lemma_push_to_set, list_has, well_formed, CorpusIndex};
use crate::paths::{lemma_path_lt_asymmetric, lemma_path_lt_total, path_less, path_lt};
use std::collections::HashSet;
use vstd::prelude::*;
use vstd::set_lib::lemma_len_intersect;

verus! {

/// Two directories that share at least one fingerprint. `dir1` is the one
/// whose path sorts first.
#[derive(Clone, Debug, PartialEq, Eq)]
pub struct Duplicate {
    pub dir1: String,
    pub dir2: String,
    pub dir1_files_number: usize,
    pub dir2_files_number: usize,
    pub intersection: usize,
}

/// What a `Duplicate` holds.
pub struct Candidate {
    pub dir1: Seq<char>,
    pub dir2: Seq<char>,
    pub dir1_files_number: nat,
    pub dir2_files_number: nat,
    pub intersection: nat,
}

impl View for Duplicate {
    type V = Candidate;

    open spec fn view(&self) -> Candidate {
        Candidate {
            dir1: self.dir1@,
            dir2: self.dir2@,
            dir1_files_number: self.dir1_files_number as nat,
            dir2_files_number: self.dir2_files_number as nat,
            intersection: self.intersection as nat,
        }
    }
}

/// What each of `duplicates` holds.
pub open spec fn views_of(duplicates: Seq<Duplicate>) -> Seq<Candidate> {
    duplicates.map_values(|d: Duplicate| d@)
}

/// The directories `a` and `b` are both indexed and have a fingerprint in
/// common.
pub open spec fn share(model: Map<Seq<char>, Set<u64>>, a: Seq<char>, b: Seq<char>) -> bool {
    &&& model.contains_key(a)
    &&& model.contains_key(b)
    &&& exists|hash: u64| #[trigger] model[a].contains(hash) && model[b].contains(hash)
}

/// The record of the pair `a`, `b`: how many fingerprints each directory has,
/// and how many they have in common.
pub open spec fn candidate_of(model: Map<Seq<char>, Set<u64>>, a: Seq<char>, b: Seq<char>) -> Candidate {
    Candidate {
        dir1: a,
        dir2: b,
        dir1_files_number: model[a].len(),
        dir2_files_number: model[b].len(),
        intersection: model[a].intersect(model[b]).len(),
    }
}

/// `c` is the record of two directories that share a fingerprint, the one
/// whose path sorts first standing first.
pub open spec fn is_candidate(model: Map<Seq<char>, Set<u64>>, c: Candidate) -> bool {
    &&& path_lt(c.dir1, c.dir2)
    &&& share(model, c.dir1, c.dir2)
    &&& c == candidate_of(model, c.dir1, c.dir2)
}

/// The records of all pairs of directories that share a fingerprint.
pub open spec fn candidates(model: Map<Seq<char>, Set<u64>>) -> Set<Candidate> {
    Set::new(|c: Candidate| is_candidate(model, c))
}

/// The intersection of `c` is at least one, and at most the number of
/// fingerprints of either directory.
pub open spec fn within_bounds(c: Candidate) -> bool {
    &&& 1 <= c.intersection
    &&& c.intersection <= c.dir1_files_number
    &&& c.intersection <= c.dir2_files_number
}

/// The intersection of a pair that shares a fingerprint is at least one, and
/// at most the number of fingerprints of either directory.
pub proof fn lemma_intersection_bound(model: Map<Seq<char>, Set<u64>>, c: Candidate)
    requires
        well_formed(model),
        candidates(model).contains(c),
    ensures
        within_bounds(c),
{
    let a = model[c.dir1];
    let b = model[c.dir2];
    assert(model.contains_key(c.dir1) && model.contains_key(c.dir2));
    lemma_len_intersect(a, b);
    lemma_len_intersect(b, a);
    assert(a.intersect(b) =~= b.intersect(a));
    let hash = choose|hash: u64| #[trigger] a.contains(hash) && b.contains(hash);
    assert(a.intersect(b).contains(hash));
    if a.intersect(b).len() == 0 {
        a.intersect(b).lemma_len0_is_empty();
    }
}

/// The directories numbered `i` and `j`, the one whose path sorts first
/// standing first.
spec fn canon(index: &CorpusIndex, i: int, j: int) -> (int, int) {
    if path_lt(index.dirs[i]@, index.dirs[j]@) {
        (i, j)
    } else {
        (j, i)
    }
}

/// The directories numbered `p` and `q` have a fingerprint in common.
spec fn common(index: &CorpusIndex, p: int, q: int) -> bool {
    exists|hash: u64| #[trigger]
        index.dir_hashes[p]@.contains(hash) && index.dir_hashes[q]@.contains(hash)
}

/// `pair` numbers two directories that share a fingerprint, the one whose
/// path sorts first standing first.
spec fn valid_pair(index: &CorpusIndex, pair: (int, int)) -> bool {
    &&& 0 <= pair.0 < index.dirs.len()
    &&& 0 <= pair.1 < index.dirs.len()
    &&& path_lt(index.dirs[pair.0]@, index.dirs[pair.1]@)
    &&& common(index, pair.0, pair.1)
}

/// The key under which a pair of directory numbers is remembered.
spec fn pair_key(p: int, q: int) -> int {
    p * 0x1_0000_0000_0000_0000 + q
}

/// The key of the pair `p`, `q`.
fn key_of(p: usize, q: usize) -> (key: u128)
    ensures
        key == pair_key(p as int, q as int),
{
    (p as u128) * 0x1_0000_0000_0000_0000u128 + (q as u128)
}

/// What holds between the pairs found so far (`pairs`), the records written
/// for them (`out`) and the keys remembered (`seen`).
spec fn in_step(
    index: &CorpusIndex,
    seen: Set<u128>,
    out: Seq<Duplicate>,
    pairs: Seq<(int, int)>,
) -> bool {
    &&& out.len() == pairs.len()
    &&& pairs.no_duplicates()
    &&& forall|t: int| 0 <= t < pairs.len() ==> valid_pair(index, #[trigger] pairs[t])
    &&& forall|t: int|
        0 <= t < pairs.len() ==> (#[trigger] out[t])@ == candidate_of(
            index@,
            index.dirs[pairs[t].0]@,
            index.dirs[pairs[t].1]@,
        )
    &&& forall|p: int, q: int|
        0 <= p < index.dirs.len() && 0 <= q < index.dirs.len() ==> (seen.contains(
            #[trigger] pair_key(p, q) as u128,
        ) <==> pairs.contains((p, q)))
}

/// The pair at the places `a` and `b` of the list of fingerprint `k` is among
/// `pairs`.
spec fn covered(index: &CorpusIndex, pairs: Seq<(int, int)>, k: int, a: int, b: int) -> bool {
    pairs.contains(canon(index, index.hash_dirs[k][a] as int, index.hash_dirs[k][b] as int))
}

/// Whether directory `q` has the fingerprint `hash`.
fn has_hash(index: &CorpusIndex, q: usize, hash: u64) -> (found: bool)
    requires
        index.linked_up(),
        q < index.dirs.len(),
    ensures
        found == index.dir_hashes[q as int]@.contains(hash),
{
    match index.slots.get(&hash) {
        Some(k) => {
            proof {
                assert(index.linked(q as int, *k as int) <==> index.holds(q as int, *k as int));
            }
            list_has(&index.hash_dirs[*k], q)
        },
        None => {
            proof {
                if index.dir_hashes[q as int]@.contains(hash) {
                    let b = choose|b: int|
                        0 <= b < index.dir_hashes[q as int].len() && index.dir_hashes[q as int][b]
                            == hash;
                    assert(index.slots@.contains_key(index.dir_hashes[q as int][b]));
                }
            }
            false
        },
    }
}

/// How many fingerprints the directories `p` and `q` have in common.
fn count_common(index: &CorpusIndex, p: usize, q: usize) -> (count: usize)
    requires
        index.linked_up(),
        p < index.dirs.len(),
        q < index.dirs.len(),
    ensures
        count == index.dir_hashes[p as int]@.to_set().intersect(
            index.dir_hashes[q as int]@.to_set(),
        ).len(),
{
    let list = &index.dir_hashes[p];
    let ghost other = index.dir_hashes[q as int]@.to_set();
    let mut count: usize = 0;
    let mut t: usize = 0;
    proof {
        assert(list@.take(0).to_set().intersect(other) =~= Set::<u64>::empty());
    }
    while t < list.len()
        invariant
            index.linked_up(),
            p < index.dirs.len(),
            q < index.dirs.len(),
            *list == index.dir_hashes[p as int],
            other == index.dir_hashes[q as int]@.to_set(),
            t <= list.len(),
            count <= t,
            count == list@.take(t as int).to_set().intersect(other).len(),
        decreases list.len() - t,
    {
        let hash = list[t];
        let ghost done = list@.take(t as int);
        proof {
            assert(list@.take(t + 1) =~= done.push(hash));
            lemma_push_to_set(done, hash);
            if done.contains(hash) {
                let u = choose|u: int| 0 <= u < done.len() && done[u] == hash;
                assert(list@[u] == list@[t as int]);
            }
            vstd::seq_lib::seq_to_set_is_finite(done);
        }
        if has_hash(index, q, hash) {
            proof {
                assert(done.push(hash).to_set().intersect(other) =~= done.to_set().intersect(
                    other,
                ).insert(hash));
            }
            count = count + 1;
        } else {
            proof {
                assert(done.push(hash).to_set().intersect(other) =~= done.to_set().intersect(other));
            }
        }
        t = t + 1;
    }
    proof {
        assert(list@.take(t as int) =~= list@);
    }
    count
}

/// Takes up the pair of the directories `i` and `j`: unless it was taken up
/// before, its record is written and its key remembered.
fn visit(
    index: &CorpusIndex,
    i: usize,
    j: usize,
    seen: &mut HashSet<u128>,
    out: &mut Vec<Duplicate>,
    Ghost(pairs): Ghost<Seq<(int, int)>>,
) -> (grown: Ghost<Seq<(int, int)>>)
    requires
        index.wf(),
        i < index.dirs.len(),
        j < index.dirs.len(),
        i != j,
        common(index, i as int, j as int),
        in_step(index, old(seen)@, old(out)@, pairs),
    ensures
        in_step(index, final(seen)@, final(out)@, grown@),
        forall|pair: (int, int)| pairs.contains(pair) ==> grown@.contains(pair),
        grown@.contains(canon(index, i as int, j as int)),
{
    proof {
        index.lemma_wf();
        index.lemma_view();
        lemma_path_lt_total(index.dirs[i as int]@, index.dirs[j as int]@);
    }
    let forward = path_less(index.dirs[i].as_str(), index.dirs[j].as_str());
    let (p, q) = if forward {
        (i, j)
    } else {
        (j, i)
    };
    assert(valid_pair(index, (p as int, q as int))) by {
        let hash = choose|hash: u64| #[trigger]
            index.dir_hashes[i as int]@.contains(hash) && index.dir_hashes[j as int]@.contains(
                hash,
            );
        assert(index.dir_hashes[p as int]@.contains(hash) && index.dir_hashes[q as int]@.contains(
            hash,
        ));
    }
    let key = key_of(p, q);
    if seen.contains(&key) {
        return Ghost(pairs);
    }
    seen.insert(key);
    let forth = count_common(index, p, q);
    let record = Duplicate {
        dir1: index.dirs[p].clone(),
        dir2: index.dirs[q].clone(),
        dir1_files_number: index.dir_hashes[p].len(),
        dir2_files_number: index.dir_hashes[q].len(),
        intersection: forth,
    };
    let ghost written = out@;
    out.push(record);
    let ghost grown = pairs.push((p as int, q as int));
    proof {
        index.dir_hashes[p as int]@.unique_seq_to_set();
        index.dir_hashes[q as int]@.unique_seq_to_set();
        assert(!pairs.contains((p as int, q as int)));
        assert(grown.no_duplicates()) by {
            crate::index::lemma_push_fresh(pairs, (p as int, q as int));
        }
        assert forall|pair: (int, int)| pairs.contains(pair) implies grown.contains(pair) by {
            let t = choose|t: int| 0 <= t < pairs.len() && pairs[t] == pair;
            assert(grown[t] == pair);
        }
        assert(grown[pairs.len() as int] == (p as int, q as int));
        assert forall|t: int| 0 <= t < grown.len() implies (#[trigger] out@[t])@ == candidate_of(
            index@,
            index.dirs[grown[t].0]@,
            index.dirs[grown[t].1]@,
        ) by {
            if t < pairs.len() {
                assert(out@[t] == written[t]);
                assert(grown[t] == pairs[t]);
            }
        }
        assert forall|t: int| 0 <= t < grown.len() implies valid_pair(index, #[trigger] grown[t]) by {
            if t < pairs.len() {
                assert(grown[t] == pairs[t]);
            }
        }
        assert forall|a: int, b: int|
            0 <= a < index.dirs.len() && 0 <= b < index.dirs.len() implies (seen@.contains(
            #[trigger] pair_key(a, b) as u128,
        ) <==> grown.contains((a, b))) by {
            if grown.contains((a, b)) {
                let t = choose|t: int| 0 <= t < grown.len() && grown[t] == (a, b);
                if t < pairs.len() {
                    assert(pairs[t] == (a, b));
                }
            }
            if pairs.contains((a, b)) {
                assert(grown.contains((a, b)));
            }
        }
    }
    Ghost(grown)
}

/// All pairs of directories of `index` that share a fingerprint: each pair
/// once, the directory whose path sorts first standing first, with the number
/// of fingerprints of each directory and the number they have in common.
pub fn find_duplicates(index: &CorpusIndex) -> (duplicates: Vec<Duplicate>)
    requires
        index.wf(),
    ensures
        views_of(duplicates@).no_duplicates(),
        views_of(duplicates@).to_set() == candidates(index@),
        forall|i: int| 0 <= i < duplicates.len() ==> within_bounds(#[trigger] duplicates[i]@),
{
    let mut duplicates: Vec<Duplicate> = Vec::new();
    let mut added: HashSet<u128> = HashSet::new();
    let ghost mut pairs: Seq<(int, int)> = Seq::empty();
    proof {
        index.lemma_wf();
    }
    let mut k: usize = 0;
    while k < index.hash_dirs.len()
        invariant
            index.wf(),
            index.linked_up(),
            k <= index.hash_dirs.len(),
            in_step(index, added@, duplicates@, pairs),
            forall|k1: int, a1: int, b1: int|
                0 <= k1 < k && 0 <= a1 < b1 < index.hash_dirs[k1].len() ==> #[trigger] covered(
                    index,
                    pairs,
                    k1,
                    a1,
                    b1,
                ),
        decreases index.hash_dirs.len() - k,
    {
        let dirs = &index.hash_dirs[k];
        let mut a: usize = 0;
        while a < dirs.len()
            invariant
                index.wf(),
                index.linked_up(),
                k < index.hash_dirs.len(),
                *dirs == index.hash_dirs[k as int],
                a <= dirs.len(),
                in_step(index, added@, duplicates@, pairs),
                forall|k1: int, a1: int, b1: int|
                    0 <= k1 < k && 0 <= a1 < b1 < index.hash_dirs[k1].len() ==> #[trigger] covered(
                        index,
                        pairs,
                        k1,
                        a1,
                        b1,
                    ),
                forall|a1: int, b1: int|
                    0 <= a1 < a && a1 < b1 < dirs.len() ==> #[trigger] covered(
                        index,
                        pairs,
                        k as int,
                        a1,
                        b1,
                    ),
            decreases dirs.len() - a,
        {
            let mut b: usize = a + 1;
            while b < dirs.len()
                invariant
                    index.wf(),
                    index.linked_up(),
                    k < index.hash_dirs.len(),
                    *dirs == index.hash_dirs[k as int],
                    a < dirs.len(),
                    a < b <= dirs.len(),
                    in_step(index, added@, duplicates@, pairs),
                    forall|k1: int, a1: int, b1: int|
                        0 <= k1 < k && 0 <= a1 < b1 < index.hash_dirs[k1].len()
                            ==> #[trigger] covered(index, pairs, k1, a1, b1),
                    forall|a1: int, b1: int|
                        0 <= a1 < a && a1 < b1 < dirs.len() ==> #[trigger] covered(
                            index,
                            pairs,
                            k as int,
                            a1,
                            b1,
                        ),
                    forall|b1: int|
                        a < b1 < b ==> #[trigger] covered(index, pairs, k as int, a as int, b1),
                decreases dirs.len() - b,
            {
                let i = dirs[a];
                let j = dirs[b];
                proof {
                    lemma_listed_share(index, k as int, a as int, b as int);
                }
                let ghost before = pairs;
                let grown = visit(index, i, j, &mut added, &mut duplicates, Ghost(pairs));
                proof {
                    pairs = grown@;
                    assert forall|k1: int, a1: int, b1: int|
                        0 <= k1 < k && 0 <= a1 < b1
                            < index.hash_dirs[k1].len() implies #[trigger] covered(
                        index,
                        pairs,
                        k1,
                        a1,
                        b1,
                    ) by {
                        assert(covered(index, before, k1, a1, b1));
                    }
                    assert forall|a1: int, b1: int|
                        0 <= a1 < a && a1 < b1 < dirs.len() implies #[trigger] covered(
                        index,
                        pairs,
                        k as int,
                        a1,
                        b1,
                    ) by {
                        assert(covered(index, before, k as int, a1, b1));
                    }
                    assert forall|b1: int| a < b1 < b + 1 implies #[trigger] covered(
                        index,
                        pairs,
                        k as int,
                        a as int,
                        b1,
                    ) by {
                        if b1 < b {
                            assert(covered(index, before, k as int, a as int, b1));
                        }
                    }
                }
                b = b + 1;
            }
            a = a + 1;
        }
        k = k + 1;
    }
    proof {
        lemma_scan_complete(index, duplicates@, pairs, added@);
        index.lemma_well_formed();
        assert forall|i: int| 0 <= i < duplicates.len() implies within_bounds(
            #[trigger] duplicates[i]@,
        ) by {
            assert(views_of(duplicates@)[i] == duplicates[i]@);
            assert(views_of(duplicates@).to_set().contains(views_of(duplicates@)[i]));
            lemma_intersection_bound(index@, duplicates[i]@);
        }
    }
    duplicates
}

/// Two directories at different places of the list of one fingerprint are
/// different directories that have that fingerprint in common.
proof fn lemma_listed_share(index: &CorpusIndex, k: int, a: int, b: int)
    requires
        index.linked_up(),
        0 <= k < index.hash_dirs.len(),
        0 <= a < index.hash_dirs[k].len(),
        0 <= b < index.hash_dirs[k].len(),
        a != b,
    ensures
        index.hash_dirs[k][a] < index.dirs.len(),
        index.hash_dirs[k][b] < index.dirs.len(),
        index.hash_dirs[k][a] != index.hash_dirs[k][b],
        common(index, index.hash_dirs[k][a] as int, index.hash_dirs[k][b] as int),
{
    let i = index.hash_dirs[k][a] as int;
    let j = index.hash_dirs[k][b] as int;
    assert(index.linked(i, k));
    assert(index.linked(j, k));
    assert(index.holds(i, k));
    assert(index.holds(j, k));
    assert(index.dir_hashes[i]@.contains(index.hashes[k]) && index.dir_hashes[j]@.contains(
        index.hashes[k],
    ));
}

/// Once every pair of every list is covered, the records written are those
/// of all pairs that share a fingerprint, each once.
proof fn lemma_scan_complete(
    index: &CorpusIndex,
    out: Seq<Duplicate>,
    pairs: Seq<(int, int)>,
    seen: Set<u128>,
)
    requires
        index.wf(),
        in_step(index, seen, out, pairs),
        forall|k: int, a: int, b: int|
            0 <= k < index.hash_dirs.len() && 0 <= a < b < index.hash_dirs[k].len()
                ==> #[trigger] covered(index, pairs, k, a, b),
    ensures
        views_of(out).no_duplicates(),
        views_of(out).to_set() == candidates(index@),
{
    index.lemma_wf();
    index.lemma_view();
    let model = index@;
    let views = views_of(out);
    assert forall|s: int, t: int| 0 <= s < views.len() && 0 <= t < views.len() && s != t implies views[s]
        != views[t] by {
        assert(valid_pair(index, pairs[s]));
        assert(valid_pair(index, pairs[t]));
        assert(pairs[s] != pairs[t]);
        assert(out[s]@ == candidate_of(model, index.dirs[pairs[s].0]@, index.dirs[pairs[s].1]@));
        assert(out[t]@ == candidate_of(model, index.dirs[pairs[t].0]@, index.dirs[pairs[t].1]@));
        if pairs[s].0 != pairs[t].0 {
            assert(index.dirs[pairs[s].0]@ != index.dirs[pairs[t].0]@);
        } else {
            assert(index.dirs[pairs[s].1]@ != index.dirs[pairs[t].1]@);
        }
    }
    assert forall|c: Candidate| views.to_set().contains(c) implies candidates(model).contains(c) by {
        let t = choose|t: int| 0 <= t < views.len() && views[t] == c;
        let (p, q) = pairs[t];
        assert(valid_pair(index, pairs[t]));
        assert(out[t]@ == candidate_of(model, index.dirs[pairs[t].0]@, index.dirs[pairs[t].1]@));
        let hash = choose|hash: u64| #[trigger]
            index.dir_hashes[p]@.contains(hash) && index.dir_hashes[q]@.contains(hash);
        assert(model[index.dirs[p]@].contains(hash) && model[index.dirs[q]@].contains(hash));
    }
    assert forall|c: Candidate| candidates(model).contains(c) implies views.to_set().contains(c) by {
        assert(is_candidate(model, c));
        assert(index.has_dir(c.dir1) && index.has_dir(c.dir2));
        let i = index.dir_id(c.dir1);
        let j = index.dir_id(c.dir2);
        assert(index.dirs[i]@ == c.dir1 && index.dirs[j]@ == c.dir2);
        lemma_path_lt_asymmetric(c.dir1, c.dir2);
        let hash = choose|hash: u64| #[trigger]
            model[c.dir1].contains(hash) && model[c.dir2].contains(hash);
        assert(model[index.dirs[i]@] == index.dir_hashes[i]@.to_set());
        assert(model[index.dirs[j]@] == index.dir_hashes[j]@.to_set());
        let u = choose|u: int| 0 <= u < index.dir_hashes[i].len() && index.dir_hashes[i][u] == hash;
        assert(index.slots@.contains_key(index.dir_hashes[i][u]));
        let k = index.slots@[hash] as int;
        assert(index.holds(i, k));
        assert(index.holds(j, k));
        assert(index.linked(i, k));
        assert(index.linked(j, k));
        let a = choose|a: int| 0 <= a < index.hash_dirs[k].len() && #[trigger] index.hash_dirs[k][a] == i;
        let b = choose|b: int| 0 <= b < index.hash_dirs[k].len() && #[trigger] index.hash_dirs[k][b] == j;
        if a < b {
            assert(covered(index, pairs, k, a, b));
        } else {
            assert(covered(index, pairs, k, b, a));
        }
        assert(pairs.contains((i, j)));
        let t = choose|t: int| 0 <= t < pairs.len() && pairs[t] == (i, j);
        assert(out[t]@ == candidate_of(model, index.dirs[pairs[t].0]@, index.dirs[pairs[t].1]@));
        assert(views[t] == c);
    }
    assert(views.to_set() =~= candidates(model));
}

} // verus!
