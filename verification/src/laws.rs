//! What holds of the index, of the pairs found in it and of a report,
//! whatever the files.

use crate::index::{
    brings, brings_dir, directories_of, file_fingerprint, fingerprints_in, lemma_loaded_none,
    lemma_loaded_push, loaded, qualifies, well_formed, FileFacts,
};
use crate::overlap::{
    candidate_of, candidates, lemma_intersection_bound, share, within_bounds, Candidate,
};
use crate::paths::{lemma_path_lt_asymmetric, lemma_path_lt_total, path_lt};
use crate::report::reported;
use vstd::prelude::*;

verus! {

/// The two mappings of an index agree: a directory is among the directories
/// of a fingerprint exactly if the fingerprint is among the fingerprints of
/// the directory.
pub proof fn lemma_mappings_agree(model: Map<Seq<char>, Set<u64>>, d: Seq<char>, hash: u64)
    ensures
        directories_of(model, hash).contains(d) <==> fingerprints_in(model, d).contains(hash),
{
}

/// The order in which files are loaded plays no part: two sequences that
/// hold the same files equally often give the same index, and so the same
/// pairs and the same report.
pub proof fn lemma_order_of_files_irrelevant(
    model: Map<Seq<char>, Set<u64>>,
    files: Seq<FileFacts>,
    shuffled: Seq<FileFacts>,
    min_size: nat,
    head: nat,
    min_intersection: nat,
)
    requires
        files.to_multiset() == shuffled.to_multiset(),
    ensures
        loaded(model, files, min_size, head) == loaded(model, shuffled, min_size, head),
        candidates(loaded(model, files, min_size, head)) == candidates(
            loaded(model, shuffled, min_size, head),
        ),
        reported(loaded(model, files, min_size, head), min_intersection) == reported(
            loaded(model, shuffled, min_size, head),
            min_intersection,
        ),
{
    lemma_same_files_bring_the_same(files, shuffled, min_size, head);
    lemma_same_files_bring_the_same(shuffled, files, min_size, head);
    let one = loaded(model, files, min_size, head);
    let other = loaded(model, shuffled, min_size, head);
    assert forall|d: Seq<char>| one.contains_key(d) implies #[trigger] one[d] == other[d] by {
        assert(one[d] =~= other[d]);
    }
    assert(one =~= other);
}

/// What the files of one sequence bring, the files of a sequence that holds
/// each of them bring too.
proof fn lemma_same_files_bring_the_same(
    files: Seq<FileFacts>,
    shuffled: Seq<FileFacts>,
    min_size: nat,
    head: nat,
)
    requires
        files.to_multiset() == shuffled.to_multiset(),
    ensures
        forall|d: Seq<char>| brings_dir(files, min_size, d) ==> brings_dir(shuffled, min_size, d),
        forall|d: Seq<char>, hash: u64|
            brings(files, min_size, head, d, hash) ==> brings(shuffled, min_size, head, d, hash),
{
    assert forall|i: int| 0 <= i < files.len() implies shuffled.contains(#[trigger] files[i]) by {
        assert(files.contains(files[i]));
        vstd::seq_lib::to_multiset_contains(files, files[i]);
        vstd::seq_lib::to_multiset_contains(shuffled, files[i]);
    }
    assert forall|d: Seq<char>| brings_dir(files, min_size, d) implies brings_dir(
        shuffled,
        min_size,
        d,
    ) by {
        let i = choose|i: int|
            0 <= i < files.len() && qualifies(#[trigger] files[i].size, min_size)
                && files[i].dir == d;
        assert(shuffled.contains(files[i]));
        let j = choose|j: int| 0 <= j < shuffled.len() && shuffled[j] == files[i];
        assert(qualifies(shuffled[j].size, min_size) && shuffled[j].dir == d);
    }
    assert forall|d: Seq<char>, hash: u64| brings(files, min_size, head, d, hash) implies brings(
        shuffled,
        min_size,
        head,
        d,
        hash,
    ) by {
        let i = choose|i: int|
            0 <= i < files.len() && qualifies(#[trigger] files[i].size, min_size)
                && files[i].dir == d && file_fingerprint(files[i], head) == hash;
        assert(shuffled.contains(files[i]));
        let j = choose|j: int| 0 <= j < shuffled.len() && shuffled[j] == files[i];
        assert(qualifies(shuffled[j].size, min_size) && shuffled[j].dir == d);
    }
}

/// A file that is too small never enters the index: loading it alone leaves
/// the index as it was.
pub proof fn lemma_small_file_left_out(
    model: Map<Seq<char>, Set<u64>>,
    file: FileFacts,
    min_size: nat,
    head: nat,
)
    requires
        file.size < min_size,
    ensures
        loaded(model, seq![file], min_size, head) == model,
{
    lemma_loaded_none(model, min_size, head);
    lemma_loaded_push(model, Seq::<FileFacts>::empty(), file, min_size, head);
    assert(Seq::<FileFacts>::empty().push(file) =~= seq![file]);
}

/// No pair is reported twice, in either order of its directories: two records
/// of pairs that share a fingerprint name the same two directories only if
/// they are one record.
pub proof fn lemma_pair_reported_once(model: Map<Seq<char>, Set<u64>>, x: Candidate, y: Candidate)
    requires
        candidates(model).contains(x),
        candidates(model).contains(y),
        (x.dir1 == y.dir1 && x.dir2 == y.dir2) || (x.dir1 == y.dir2 && x.dir2 == y.dir1),
    ensures
        x == y,
{
    lemma_path_lt_asymmetric(x.dir1, x.dir2);
}

/// In a list of records in which none occurs twice, and which are records of
/// pairs that share a fingerprint, no two places name the same two
/// directories, in either order.
pub proof fn lemma_pairs_once(model: Map<Seq<char>, Set<u64>>, s: Seq<Candidate>)
    requires
        s.no_duplicates(),
        forall|i: int| 0 <= i < s.len() ==> candidates(model).contains(#[trigger] s[i]),
    ensures
        forall|i: int, j: int|
            0 <= i < s.len() && 0 <= j < s.len() && i != j ==> !(s[i].dir1 == s[j].dir1
                && s[i].dir2 == s[j].dir2) && !(s[i].dir1 == s[j].dir2 && s[i].dir2 == s[j].dir1),
{
    assert forall|i: int, j: int| 0 <= i < s.len() && 0 <= j < s.len() && i != j implies !(
    s[i].dir1 == s[j].dir1 && s[i].dir2 == s[j].dir2) && !(s[i].dir1 == s[j].dir2 && s[i].dir2
        == s[j].dir1) by {
        assert(candidates(model).contains(s[i]));
        assert(candidates(model).contains(s[j]));
        if (s[i].dir1 == s[j].dir1 && s[i].dir2 == s[j].dir2) || (s[i].dir1 == s[j].dir2
            && s[i].dir2 == s[j].dir1) {
            lemma_pair_reported_once(model, s[i], s[j]);
        }
    }
}

/// A report holds no pair below the threshold, and every two different
/// directories that share at least one fingerprint and at least
/// `min_intersection` of them have their record in the report, under the
/// directory whose path sorts first.
pub proof fn lemma_threshold(
    model: Map<Seq<char>, Set<u64>>,
    min_intersection: nat,
    a: Seq<char>,
    b: Seq<char>,
)
    requires
        well_formed(model),
    ensures
        forall|c: Candidate| #[trigger]
            reported(model, min_intersection).contains(c) ==> c.intersection >= min_intersection
                && within_bounds(c),
        a != b && share(model, a, b) && model[a].intersect(model[b]).len() >= min_intersection
            ==> reported(model, min_intersection).contains(
            if path_lt(a, b) {
                candidate_of(model, a, b)
            } else {
                candidate_of(model, b, a)
            },
        ),
{
    assert forall|c: Candidate| #[trigger]
        reported(model, min_intersection).contains(c) implies c.intersection >= min_intersection
        && within_bounds(c) by {
        assert(candidates(model).contains(c));
        lemma_intersection_bound(model, c);
    }
    if a != b && share(model, a, b) && !path_lt(a, b) {
        lemma_path_lt_total(a, b);
        let hash = choose|hash: u64| #[trigger] model[a].contains(hash) && model[b].contains(hash);
        assert(model[b].contains(hash) && model[a].contains(hash));
        assert(model[a].intersect(model[b]) =~= model[b].intersect(model[a]));
    }
}

} // verus!
