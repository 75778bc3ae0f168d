//! The corpus index: which directory holds which fingerprints, and which
//! fingerprint occurs in which directories.

use crate::fingerprint::{crc32_of, fingerprint_of, get_hash, head_of};
use crate::paths::same_path;
use std::collections::HashMap;
use vstd::prelude::*;

verus! {

/// A file as the index takes it: the directory it lies in, its size, and
/// the bytes its content starts with.
#[derive(Clone, Debug, PartialEq, Eq)]
pub struct FileInfo {
    pub dir: String,
    pub size: usize,
    pub content: Vec<u8>,
}

/// What a `FileInfo` holds.
pub struct FileFacts {
    pub dir: Seq<char>,
    pub size: nat,
    pub content: Seq<u8>,
}

impl View for FileInfo {
    type V = FileFacts;

    open spec fn view(&self) -> FileFacts {
        FileFacts { dir: self.dir@, size: self.size as nat, content: self.content@ }
    }
}

/// What each of `files` holds.
pub open spec fn facts_of(files: Seq<FileInfo>) -> Seq<FileFacts> {
    files.map_values(|file: FileInfo| file@)
}

/// A file of `size` bytes is large enough to be indexed.
pub open spec fn qualifies(size: nat, min_size: nat) -> bool {
    size >= min_size
}

/// Whether a file of `size` bytes is large enough to be indexed.
pub fn large_enough(size: usize, min_size: usize) -> (enough: bool)
    ensures
        enough == qualifies(size as nat, min_size as nat),
{
    size >= min_size
}

/// The fingerprint of `file` when at most `head` bytes of it are read (all of
/// it when `head` is zero).
pub open spec fn file_fingerprint(file: FileFacts, head: nat) -> u64 {
    fingerprint_of(crc32_of(head_of(file.content, head)), file.size)
}

/// `model` with the fingerprint `hash` added to the directory `d`.
pub open spec fn recorded(model: Map<Seq<char>, Set<u64>>, d: Seq<char>, hash: u64) -> Map<
    Seq<char>,
    Set<u64>,
> {
    model.insert(d, fingerprints_in(model, d).insert(hash))
}

/// Some file among `files` is large enough and lies in the directory `d`.
pub open spec fn brings_dir(files: Seq<FileFacts>, min_size: nat, d: Seq<char>) -> bool {
    exists|i: int|
        0 <= i < files.len() && qualifies(#[trigger] files[i].size, min_size) && files[i].dir == d
}

/// Some file among `files` is large enough, lies in the directory `d` and has
/// the fingerprint `hash`.
pub open spec fn brings(
    files: Seq<FileFacts>,
    min_size: nat,
    head: nat,
    d: Seq<char>,
    hash: u64,
) -> bool {
    exists|i: int|
        0 <= i < files.len() && qualifies(#[trigger] files[i].size, min_size) && files[i].dir == d
            && file_fingerprint(files[i], head) == hash
}

/// `model` after the files `files` were loaded into it: each file of at least
/// `min_size` bytes adds its fingerprint to its directory. The order of the
/// files plays no part.
pub open spec fn loaded(
    model: Map<Seq<char>, Set<u64>>,
    files: Seq<FileFacts>,
    min_size: nat,
    head: nat,
) -> Map<Seq<char>, Set<u64>> {
    Map::new(
        |d: Seq<char>| model.contains_key(d) || brings_dir(files, min_size, d),
        |d: Seq<char>|
            fingerprints_in(model, d).union(
                Set::new(|hash: u64| brings(files, min_size, head, d, hash)),
            ),
    )
}

/// Loading no file changes nothing.
pub proof fn lemma_loaded_none(model: Map<Seq<char>, Set<u64>>, min_size: nat, head: nat)
    ensures
        loaded(model, Seq::<FileFacts>::empty(), min_size, head) == model,
{
    let files = Seq::<FileFacts>::empty();
    assert forall|d: Seq<char>| model.contains_key(d) implies #[trigger] loaded(
        model,
        files,
        min_size,
        head,
    )[d] == model[d] by {
        assert(loaded(model, files, min_size, head)[d] =~= model[d]);
    }
    assert(loaded(model, files, min_size, head) =~= model);
}

/// Loading one more file records its fingerprint if it is large enough, and
/// changes nothing if it is not.
pub proof fn lemma_loaded_push(
    model: Map<Seq<char>, Set<u64>>,
    files: Seq<FileFacts>,
    file: FileFacts,
    min_size: nat,
    head: nat,
)
    ensures
        loaded(model, files.push(file), min_size, head) == if qualifies(file.size, min_size) {
            recorded(
                loaded(model, files, min_size, head),
                file.dir,
                file_fingerprint(file, head),
            )
        } else {
            loaded(model, files, min_size, head)
        },
{
    let more = files.push(file);
    let n = files.len() as int;
    let before = loaded(model, files, min_size, head);
    let after = loaded(model, more, min_size, head);
    let expected = if qualifies(file.size, min_size) {
        recorded(before, file.dir, file_fingerprint(file, head))
    } else {
        before
    };
    assert(more[n] == file);
    assert forall|i: int| 0 <= i < n implies more[i] == files[i] by {}
    assert forall|d: Seq<char>| brings_dir(more, min_size, d) <==> (brings_dir(files, min_size, d) || (
    qualifies(file.size, min_size) && file.dir == d)) by {
        if brings_dir(more, min_size, d) {
            let i = choose|i: int|
                0 <= i < more.len() && qualifies(#[trigger] more[i].size, min_size) && more[i].dir
                    == d;
            if i < n {
                assert(qualifies(files[i].size, min_size) && files[i].dir == d);
            }
        }
        if brings_dir(files, min_size, d) {
            let i = choose|i: int|
                0 <= i < files.len() && qualifies(#[trigger] files[i].size, min_size)
                    && files[i].dir == d;
            assert(qualifies(more[i].size, min_size) && more[i].dir == d);
        }
        if qualifies(file.size, min_size) && file.dir == d {
            assert(qualifies(more[n].size, min_size) && more[n].dir == d);
        }
    }
    assert forall|d: Seq<char>, hash: u64|
        brings(more, min_size, head, d, hash) <==> (brings(files, min_size, head, d, hash) || (
        qualifies(file.size, min_size) && file.dir == d && file_fingerprint(file, head)
            == hash)) by {
        if brings(more, min_size, head, d, hash) {
            let i = choose|i: int|
                0 <= i < more.len() && qualifies(#[trigger] more[i].size, min_size) && more[i].dir
                    == d && file_fingerprint(more[i], head) == hash;
            if i < n {
                assert(qualifies(files[i].size, min_size) && files[i].dir == d);
            }
        }
        if brings(files, min_size, head, d, hash) {
            let i = choose|i: int|
                0 <= i < files.len() && qualifies(#[trigger] files[i].size, min_size)
                    && files[i].dir == d && file_fingerprint(files[i], head) == hash;
            assert(qualifies(more[i].size, min_size) && more[i].dir == d);
        }
        if qualifies(file.size, min_size) && file.dir == d && file_fingerprint(file, head) == hash {
            assert(qualifies(more[n].size, min_size) && more[n].dir == d);
        }
    }
    assert forall|d: Seq<char>| after.contains_key(d) implies #[trigger] after[d] == expected[d] by {
        assert(after[d] =~= expected[d]);
    }
    assert(after =~= expected);
}

/// An index of the fingerprints found in each directory.
///
/// Its view maps every indexed directory to the set of fingerprints found in
/// it. Directories and fingerprints are numbered in the order in which they
/// first arrive; `dir_hashes` lists the fingerprints of each directory and
/// `hash_dirs` the directories of each fingerprint.
pub struct CorpusIndex {
    pub(crate) dirs: Vec<String>,
    pub(crate) dir_hashes: Vec<Vec<u64>>,
    pub(crate) hashes: Vec<u64>,
    pub(crate) slots: HashMap<u64, usize>,
    pub(crate) hash_dirs: Vec<Vec<usize>>,
}

impl View for CorpusIndex {
    type V = Map<Seq<char>, Set<u64>>;

    closed spec fn view(&self) -> Map<Seq<char>, Set<u64>> {
        Map::new(
            |d: Seq<char>| self.has_dir(d),
            |d: Seq<char>| self.dir_hashes[self.dir_id(d)]@.to_set(),
        )
    }
}

impl CorpusIndex {
    /// Some numbered directory has the path `d`.
    pub open(crate) spec fn has_dir(&self, d: Seq<char>) -> bool {
        exists|i: int| 0 <= i < self.dirs.len() && #[trigger] self.dirs[i]@ == d
    }

    /// The number of the directory with the path `d`.
    pub open(crate) spec fn dir_id(&self, d: Seq<char>) -> int {
        choose|i: int| 0 <= i < self.dirs.len() && #[trigger] self.dirs[i]@ == d
    }

    /// Directory `dir` stands in the list of fingerprint number `slot`.
    pub open(crate) spec fn linked(&self, dir: int, slot: int) -> bool {
        exists|a: int| 0 <= a < self.hash_dirs[slot].len() && #[trigger] self.hash_dirs[slot][a] == dir
    }

    /// Fingerprint number `slot` stands in the list of directory `dir`.
    pub open(crate) spec fn holds(&self, dir: int, slot: int) -> bool {
        self.dir_hashes[dir]@.contains(self.hashes[slot])
    }

    /// The two numberings and the two families of lists agree with each other.
    pub open(crate) spec fn linked_up(&self) -> bool {
        &&& self.dirs.len() == self.dir_hashes.len()
        &&& self.hashes.len() == self.hash_dirs.len()
        &&& forall|i: int, j: int|
            0 <= i < j < self.dirs.len() ==> #[trigger] self.dirs[i]@ != #[trigger] self.dirs[j]@
        &&& forall|i: int|
            0 <= i < self.dir_hashes.len() ==> (#[trigger] self.dir_hashes[i])@.no_duplicates()
        &&& self.hashes@.no_duplicates()
        &&& forall|k: int|
            0 <= k < self.hashes.len() ==> self.slots@.contains_key(#[trigger] self.hashes[k])
                && self.slots@[self.hashes[k]] == k
        &&& forall|f: u64| #[trigger]
            self.slots@.contains_key(f) ==> self.slots@[f] < self.hashes.len()
                && self.hashes[self.slots@[f] as int] == f
        &&& forall|k: int|
            0 <= k < self.hash_dirs.len() ==> (#[trigger] self.hash_dirs[k])@.no_duplicates()
        &&& forall|k: int, a: int|
            0 <= k < self.hash_dirs.len() && 0 <= a < self.hash_dirs[k].len() ==> (
            #[trigger] self.hash_dirs[k][a]) < self.dirs.len()
        &&& forall|i: int, b: int|
            0 <= i < self.dir_hashes.len() && 0 <= b < self.dir_hashes[i].len()
                ==> self.slots@.contains_key(#[trigger] self.dir_hashes[i][b])
        &&& forall|i: int, k: int|
            #![trigger self.linked(i, k)]
            #![trigger self.holds(i, k)]
            0 <= i < self.dirs.len() && 0 <= k < self.hashes.len() ==> (self.linked(i, k)
                <==> self.holds(i, k))
    }

    /// The invariant of the index: its lists agree with each other, and no
    /// directory is listed without a fingerprint.
    pub closed spec fn wf(&self) -> bool {
        &&& self.linked_up()
        &&& forall|i: int| 0 <= i < self.dir_hashes.len() ==> (#[trigger] self.dir_hashes[i]).len() > 0
    }

    /// What the invariant says of the lists.
    pub(crate) proof fn lemma_wf(&self)
        requires
            self.wf(),
        ensures
            self.linked_up(),
            forall|i: int| 0 <= i < self.dir_hashes.len() ==> (#[trigger] self.dir_hashes[i]).len() > 0,
    {
    }

    /// The view of an index is well formed.
    pub proof fn lemma_well_formed(&self)
        requires
            self.wf(),
        ensures
            well_formed(self@),
    {
        self.lemma_view();
        assert forall|d: Seq<char>| #[trigger] self@.contains_key(d) implies self@[d].finite()
            && self@[d].len() > 0 by {
            let i = self.dir_id(d);
            assert(self.dirs[i]@ == d);
            assert(self@[self.dirs[i]@] == self.dir_hashes[i]@.to_set());
            vstd::seq_lib::seq_to_set_is_finite(self.dir_hashes[i]@);
            self.dir_hashes[i]@.unique_seq_to_set();
        }
    }

    /// What the view holds for each numbered directory.
    pub(crate) proof fn lemma_view(&self)
        requires
            self.linked_up(),
        ensures
            forall|d: Seq<char>| self@.contains_key(d) <==> self.has_dir(d),
            forall|i: int|
                0 <= i < self.dirs.len() ==> self@.contains_key(#[trigger] self.dirs[i]@)
                    && self@[self.dirs[i]@] == self.dir_hashes[i]@.to_set(),
    {
        assert forall|i: int| 0 <= i < self.dirs.len() implies self@.contains_key(
            #[trigger] self.dirs[i]@,
        ) && self@[self.dirs[i]@] == self.dir_hashes[i]@.to_set() by {
            let j = self.dir_id(self.dirs[i]@);
            assert(j == i);
        }
    }

    /// An index of nothing.
    pub fn new() -> (index: Self)
        ensures
            index.wf(),
            index@ == Map::<Seq<char>, Set<u64>>::empty(),
    {
        let index = CorpusIndex {
            dirs: Vec::new(),
            dir_hashes: Vec::new(),
            hashes: Vec::new(),
            slots: HashMap::new(),
            hash_dirs: Vec::new(),
        };
        assert(index@ =~= Map::<Seq<char>, Set<u64>>::empty());
        index
    }

    /// The number of the directory `dir`, which is given the next free number
    /// and an empty list if it had none.
    fn intern_dir(&mut self, dir: &str) -> (id: usize)
        requires
            old(self).linked_up(),
        ensures
            final(self).linked_up(),
            id < final(self).dirs.len(),
            final(self).dirs[id as int]@ == dir@,
            final(self).hashes == old(self).hashes,
            final(self).slots == old(self).slots,
            final(self).hash_dirs == old(self).hash_dirs,
            old(self).has_dir(dir@) ==> final(self).dirs@ == old(self).dirs@ && final(self).dir_hashes@ == old(self).dir_hashes@,
            !old(self).has_dir(dir@) ==> id == old(self).dirs.len() && final(self).dirs@.drop_last() == old(self).dirs@ && final(self).dir_hashes@.drop_last() == old(self).dir_hashes@ && final(self).dirs.len() == id + 1 && final(self).dir_hashes[id as int]@
                == Seq::<u64>::empty(),
    {
        match self.find_dir(dir) {
            Some(i) => i,
            None => {
                let ghost before = *self;
                let id = self.dirs.len();
                self.dirs.push(dir.to_owned());
                self.dir_hashes.push(Vec::new());
                proof {
                    assert(self.dirs@.drop_last() =~= before.dirs@);
                    assert(self.dir_hashes@.drop_last() =~= before.dir_hashes@);
                    assert forall|i: int, j: int| 0 <= i < j < self.dirs.len() implies #[trigger]
                        self.dirs[i]@ != #[trigger] self.dirs[j]@ by {
                        if j == id {
                            assert(before.dirs[i]@ != dir@);
                        }
                    }
                    assert forall|i: int, k: int|
                        0 <= i < self.dirs.len() && 0 <= k < self.hashes.len() implies (
                    self.linked(i, k) <==> self.holds(i, k)) by {
                        if i == id {
                            if self.linked(i, k) {
                                let a = choose|a: int|
                                    0 <= a < self.hash_dirs[k].len() && #[trigger] self.hash_dirs[k][a]
                                        == i;
                                assert(before.hash_dirs[k][a] < before.dirs.len());
                            }
                        } else {
                            assert(before.linked(i, k) <==> before.holds(i, k));
                        }
                    }
                }
                id
            },
        }
    }

    /// The number of the fingerprint `hash`, which is given the next free
    /// number and an empty list if it had none.
    fn intern_hash(&mut self, hash: u64) -> (k: usize)
        requires
            old(self).linked_up(),
        ensures
            final(self).linked_up(),
            k < final(self).hashes.len(),
            final(self).hashes[k as int] == hash,
            final(self).dirs == old(self).dirs,
            final(self).dir_hashes == old(self).dir_hashes,
    {
        match self.find_hash(hash) {
            Some(k) => k,
            None => {
                let ghost before = *self;
                let k = self.hashes.len();
                self.hashes.push(hash);
                self.hash_dirs.push(Vec::new());
                self.slots.insert(hash, k);
                proof {
                    assert(self.hashes@.drop_last() =~= before.hashes@);
                    assert(self.hash_dirs@.drop_last() =~= before.hash_dirs@);
                    assert forall|j: int| 0 <= j < self.hashes.len() implies self.slots@.contains_key(
                        #[trigger] self.hashes[j],
                    ) && self.slots@[self.hashes[j]] == j by {
                        if j < k {
                            assert(before.hashes[j] == self.hashes[j]);
                            assert(before.hashes@.contains(before.hashes[j]));
                        }
                    }
                    assert forall|f: u64| #[trigger] self.slots@.contains_key(f) implies self.slots@[f]
                        < self.hashes.len() && self.hashes[self.slots@[f] as int] == f by {
                        if f != hash {
                            assert(before.slots@.contains_key(f));
                        }
                    }
                    assert forall|i: int, b: int|
                        0 <= i < self.dir_hashes.len() && 0 <= b
                            < self.dir_hashes[i].len() implies self.slots@.contains_key(
                        #[trigger] self.dir_hashes[i][b],
                    ) by {
                        assert(before.slots@.contains_key(before.dir_hashes[i][b]));
                    }
                    assert forall|i: int, j: int|
                        0 <= i < self.dirs.len() && 0 <= j < self.hashes.len() implies (
                    self.linked(i, j) <==> self.holds(i, j)) by {
                        if j == k {
                            if self.holds(i, j) {
                                let b = choose|b: int|
                                    0 <= b < self.dir_hashes[i].len() && self.dir_hashes[i][b]
                                        == hash;
                                assert(before.slots@.contains_key(before.dir_hashes[i][b]));
                                assert(before.hashes@.contains(hash));
                            }
                        } else {
                            assert(before.linked(i, j) <==> before.holds(i, j));
                        }
                    }
                }
                k
            },
        }
    }

    /// Records that the directory `dir` holds a file with the fingerprint
    /// `hash`.
    pub fn insert(&mut self, dir: &str, hash: u64)
        requires
            old(self).wf(),
        ensures
            final(self).wf(),
            final(self)@ == old(self)@.insert(dir@, fingerprints_in(old(self)@, dir@).insert(hash)),
    {
        let ghost before = *self;
        let id = self.intern_dir(dir);
        let ghost named = *self;
        let k = self.intern_hash(hash);
        let ghost ready = *self;
        let known = list_has(&self.hash_dirs[k], id);
        if !known {
            self.hash_dirs[k].push(id);
            self.dir_hashes[id].push(hash);
        }
        proof {
            assert(ready.linked(id as int, k as int) == known);
            assert(ready.linked(id as int, k as int) <==> ready.holds(id as int, k as int));
            if !known {
                lemma_push_fresh(ready.dir_hashes[id as int]@, hash);
                lemma_push_fresh(ready.hash_dirs[k as int]@, id);
                assert forall|i: int, j: int|
                    0 <= i < self.dirs.len() && 0 <= j < self.hashes.len() implies (self.linked(i, j)
                    <==> self.holds(i, j)) by {
                    assert(ready.linked(i, j) <==> ready.holds(i, j));
                    if j == k {
                        if i == id {
                            assert(self.hash_dirs[j][ready.hash_dirs[j].len() as int] == i);
                            assert(self.dir_hashes[i][ready.dir_hashes[i].len() as int] == hash);
                        } else {
                            if ready.linked(i, j) {
                                let a = choose|a: int|
                                    0 <= a < ready.hash_dirs[j].len() && #[trigger] ready.hash_dirs[j][a]
                                        == i;
                                assert(self.hash_dirs[j][a] == i);
                            }
                            if self.linked(i, j) {
                                let a = choose|a: int|
                                    0 <= a < self.hash_dirs[j].len() && #[trigger] self.hash_dirs[j][a]
                                        == i;
                                assert(ready.hash_dirs[j][a] == i);
                            }
                            assert(self.dir_hashes[i] == ready.dir_hashes[i]);
                        }
                    } else {
                        assert(self.hash_dirs[j] == ready.hash_dirs[j]);
                        if i != id {
                            assert(self.dir_hashes[i] == ready.dir_hashes[i]);
                        }
                        if i == id {
                            if ready.holds(i, j) {
                                let b = choose|b: int|
                                    0 <= b < ready.dir_hashes[i].len() && ready.dir_hashes[i][b]
                                        == ready.hashes[j];
                                assert(self.dir_hashes[i][b] == self.hashes[j]);
                            }
                            if self.holds(i, j) {
                                let b = choose|b: int|
                                    0 <= b < self.dir_hashes[i].len() && self.dir_hashes[i][b]
                                        == self.hashes[j];
                                if b == ready.dir_hashes[i].len() {
                                    assert(ready.hashes[j] == ready.hashes[k as int]);
                                }
                                assert(ready.dir_hashes[i][b] == ready.hashes[j]);
                            }
                        }
                    }
                }
                assert forall|i: int, b: int|
                    0 <= i < self.dir_hashes.len() && 0 <= b
                        < self.dir_hashes[i].len() implies self.slots@.contains_key(
                    #[trigger] self.dir_hashes[i][b],
                ) by {
                    if i == id && b == ready.dir_hashes[i].len() {
                        assert(self.slots@.contains_key(self.hashes[k as int]));
                    } else {
                        assert(ready.slots@.contains_key(ready.dir_hashes[i][b]));
                    }
                }
                assert forall|j: int, a: int|
                    0 <= j < self.hash_dirs.len() && 0 <= a < self.hash_dirs[j].len() implies (
                #[trigger] self.hash_dirs[j][a]) < self.dirs.len() by {
                    if !(j == k && a == ready.hash_dirs[j].len()) {
                        assert(ready.hash_dirs[j][a] < ready.dirs.len());
                    }
                }
                assert(self.linked_up());
            } else {
                let b = choose|b: int|
                    0 <= b < ready.dir_hashes[id as int].len() && ready.dir_hashes[id as int][b]
                        == hash;
            }
            assert(self.dir_hashes[id as int].len() > 0);
            assert forall|i: int| 0 <= i < self.dir_hashes.len() implies (
            #[trigger] self.dir_hashes[i]).len() > 0 by {
                if i != id {
                    assert(before.dir_hashes[i].len() > 0);
                }
            }
            before.lemma_view();
            self.lemma_view();
            let grown = fingerprints_in(before@, dir@).insert(hash);
            assert(self.dir_hashes[id as int]@.to_set() =~= grown) by {
                if before.has_dir(dir@) {
                    assert(before.dirs[id as int]@ == dir@);
                    assert(before@[dir@] == before.dir_hashes[id as int]@.to_set());
                }
                assert(named.dir_hashes[id as int]@.to_set() =~= fingerprints_in(before@, dir@));
                if !known {
                    assert(self.dir_hashes[id as int]@ == ready.dir_hashes[id as int]@.push(hash));
                    lemma_push_to_set(ready.dir_hashes[id as int]@, hash);
                } else {
                    assert(ready.dir_hashes[id as int]@.contains(hash));
                }
            }
            assert forall|d: Seq<char>| self@.contains_key(d) <==> before@.insert(
                dir@,
                grown,
            ).contains_key(d) by {
                if self.has_dir(d) {
                    let i = self.dir_id(d);
                    if i != id {
                        assert(before.dirs[i]@ == d);
                    }
                }
                if before.has_dir(d) {
                    let i = before.dir_id(d);
                    assert(self.dirs[i]@ == d);
                }
                if d == dir@ {
                    assert(self.dirs[id as int]@ == d);
                }
            }
            assert forall|d: Seq<char>| self@.contains_key(d) implies self@[d] == before@.insert(
                dir@,
                grown,
            )[d] by {
                let i = self.dir_id(d);
                assert(self@[self.dirs[i]@] == self.dir_hashes[i]@.to_set());
                if i != id {
                    assert(before.dirs[i]@ == d);
                    assert(before@[before.dirs[i]@] == before.dir_hashes[i]@.to_set());
                    assert(self.dir_hashes[i] == before.dir_hashes[i]);
                }
            }
            assert(self@ =~= before@.insert(dir@, grown));
        }
    }

    /// Takes one file in: if it has at least `min_size` bytes, its fingerprint
    /// over at most `head` bytes is recorded for its directory. Says whether
    /// the file was taken.
    pub fn add_file(&mut self, file: &FileInfo, min_size: usize, head: usize) -> (taken: bool)
        requires
            old(self).wf(),
        ensures
            final(self).wf(),
            taken == qualifies(file@.size, min_size as nat),
            final(self)@ == if taken {
                recorded(old(self)@, file@.dir, file_fingerprint(file@, head as nat))
            } else {
                old(self)@
            },
    {
        if !large_enough(file.size, min_size) {
            return false;
        }
        let hash = get_hash(file.content.as_slice(), file.size, head);
        self.insert(file.dir.as_str(), hash);
        true
    }

    /// Whether the directory `dir` is indexed.
    pub fn contains_dir(&self, dir: &str) -> (found: bool)
        requires
            self.wf(),
        ensures
            found == self@.contains_key(dir@),
    {
        proof {
            self.lemma_view();
        }
        match self.find_dir(dir) {
            Some(_) => true,
            None => false,
        }
    }

    /// The number of fingerprints recorded for the directory `dir`.
    pub fn fingerprint_count(&self, dir: &str) -> (count: usize)
        requires
            self.wf(),
        ensures
            count == fingerprints_in(self@, dir@).len(),
    {
        proof {
            self.lemma_view();
        }
        match self.find_dir(dir) {
            Some(i) => {
                proof {
                    self.dir_hashes[i as int]@.unique_seq_to_set();
                }
                self.dir_hashes[i].len()
            },
            None => 0,
        }
    }

    /// Whether the fingerprint `hash` is recorded for the directory `dir`.
    /// Read from the list of the directory.
    pub fn contains(&self, dir: &str, hash: u64) -> (found: bool)
        requires
            self.wf(),
        ensures
            found == fingerprints_in(self@, dir@).contains(hash),
    {
        proof {
            self.lemma_view();
        }
        match self.find_dir(dir) {
            Some(i) => {
                let list = &self.dir_hashes[i];
                let mut b: usize = 0;
                proof {
                    assert(self@[self.dirs[i as int]@] == list@.to_set());
                }
                while b < list.len()
                    invariant
                        b <= list.len(),
                        fingerprints_in(self@, dir@) == list@.to_set(),
                        forall|c: int| 0 <= c < b ==> list[c] != hash,
                    decreases list.len() - b,
                {
                    if list[b] == hash {
                        proof {
                            assert(list@.contains(list@[b as int]));
                        }
                        return true;
                    }
                    b = b + 1;
                }
                false
            },
            None => false,
        }
    }

    /// The directories for which the fingerprint `hash` is recorded, each
    /// once. Read from the list of the fingerprint.
    pub fn directories_with(&self, hash: u64) -> (dirs: Vec<String>)
        requires
            self.wf(),
        ensures
            dirs@.map_values(|d: String| d@).no_duplicates(),
            dirs@.map_values(|d: String| d@).to_set() == directories_of(self@, hash),
    {
        proof {
            self.lemma_view();
        }
        let mut dirs: Vec<String> = Vec::new();
        let ghost names = |d: String| d@;
        match self.find_hash(hash) {
            Some(k) => {
                let list = &self.hash_dirs[k];
                let mut a: usize = 0;
                while a < list.len()
                    invariant
                        self.linked_up(),
                        k < self.hash_dirs.len(),
                        *list == self.hash_dirs[k as int],
                        a <= list.len(),
                        dirs.len() == a,
                        forall|c: int| 0 <= c < a ==> (#[trigger] dirs[c])@ == self.dirs[list[c] as int]@,
                    decreases list.len() - a,
                {
                    proof {
                        assert(self.hash_dirs[k as int][a as int] < self.dirs.len());
                    }
                    dirs.push(self.dirs[list[a]].clone());
                    a = a + 1;
                }
                proof {
                    let found = dirs@.map_values(names);
                    assert forall|c: int, e: int| 0 <= c < found.len() && 0 <= e < found.len() && c
                        != e implies found[c] != found[e] by {
                        assert(self.hash_dirs[k as int][c] < self.dirs.len());
                        assert(self.hash_dirs[k as int][e] < self.dirs.len());
                        assert(list[c] != list[e]);
                    }
                    assert forall|d: Seq<char>| found.to_set().contains(d) <==> directories_of(
                        self@,
                        hash,
                    ).contains(d) by {
                        if found.contains(d) {
                            let c = choose|c: int| 0 <= c < found.len() && found[c] == d;
                            let i = list[c] as int;
                            assert(self.hash_dirs[k as int][c] < self.dirs.len());
                            assert(self.linked(i, k as int));
                            assert(self.holds(i, k as int));
                            assert(self@[self.dirs[i]@] == self.dir_hashes[i]@.to_set());
                        }
                        if directories_of(self@, hash).contains(d) {
                            let i = self.dir_id(d);
                            assert(self.dirs[i]@ == d);
                            assert(self@[self.dirs[i]@] == self.dir_hashes[i]@.to_set());
                            assert(self.holds(i, k as int));
                            assert(self.linked(i, k as int));
                            let c = choose|c: int|
                                0 <= c < self.hash_dirs[k as int].len()
                                    && #[trigger] self.hash_dirs[k as int][c] == i;
                            assert(found[c] == d);
                        }
                    }
                    assert(found.to_set() =~= directories_of(self@, hash));
                }
            },
            None => {
                proof {
                    let found = dirs@.map_values(names);
                    assert forall|d: Seq<char>| !directories_of(self@, hash).contains(d) by {
                        if directories_of(self@, hash).contains(d) {
                            let i = self.dir_id(d);
                            assert(self.dirs[i]@ == d);
                            assert(self@[self.dirs[i]@] == self.dir_hashes[i]@.to_set());
                            let b = choose|b: int|
                                0 <= b < self.dir_hashes[i].len() && self.dir_hashes[i][b] == hash;
                            assert(self.slots@.contains_key(self.dir_hashes[i][b]));
                            assert(self.hashes@.contains(self.hashes[self.slots@[hash] as int]));
                        }
                    }
                    assert(found.to_set() =~= directories_of(self@, hash));
                }
            },
        }
        dirs
    }

    /// The number of the directory `dir`, if it has one.
    pub(crate) fn find_dir(&self, dir: &str) -> (found: Option<usize>)
        ensures
            match found {
                Some(i) => i < self.dirs.len() && self.dirs[i as int]@ == dir@,
                None => !self.has_dir(dir@),
            },
    {
        let mut i: usize = self.dirs.len();
        while i > 0
            invariant
                i <= self.dirs.len(),
                forall|j: int| i <= j < self.dirs.len() ==> (#[trigger] self.dirs[j])@ != dir@,
            decreases i,
        {
            i = i - 1;
            if same_path(self.dirs[i].as_str(), dir) {
                return Some(i);
            }
        }
        None
    }

    /// The number of the fingerprint `hash`, if it has one.
    pub(crate) fn find_hash(&self, hash: u64) -> (found: Option<usize>)
        requires
            self.linked_up(),
        ensures
            match found {
                Some(k) => k < self.hashes.len() && self.hashes[k as int] == hash,
                None => !self.hashes@.contains(hash),
            },
    {
        match self.slots.get(&hash) {
            Some(k) => Some(*k),
            None => None,
        }
    }
}

/// The fingerprints that `model` has for the directory `d`: none where it does
/// not know `d`.
pub open spec fn fingerprints_in(model: Map<Seq<char>, Set<u64>>, d: Seq<char>) -> Set<u64> {
    if model.contains_key(d) {
        model[d]
    } else {
        Set::empty()
    }
}

/// The directories for which `model` has the fingerprint `hash`.
pub open spec fn directories_of(model: Map<Seq<char>, Set<u64>>, hash: u64) -> Set<Seq<char>> {
    Set::new(|d: Seq<char>| model.contains_key(d) && model[d].contains(hash))
}

/// Every directory of `model` has finitely many fingerprints, and at least
/// one.
pub open spec fn well_formed(model: Map<Seq<char>, Set<u64>>) -> bool {
    forall|d: Seq<char>| #[trigger]
        model.contains_key(d) ==> model[d].finite() && model[d].len() > 0
}

/// A list without repeats stays so when something new is put at its end.
pub(crate) proof fn lemma_push_fresh<T>(s: Seq<T>, x: T)
    requires
        s.no_duplicates(),
        !s.contains(x),
    ensures
        s.push(x).no_duplicates(),
{
    assert forall|i: int, j: int| 0 <= i < s.len() + 1 && 0 <= j < s.len() + 1 && i != j implies s.push(
        x,
    )[i] != s.push(x)[j] by {
        if i < s.len() {
            assert(s.contains(s[i]));
        }
        if j < s.len() {
            assert(s.contains(s[j]));
        }
    }
}

/// The members of a list with `x` put at its end are those of the list, and `x`.
pub(crate) proof fn lemma_push_to_set<T>(s: Seq<T>, x: T)
    ensures
        s.push(x).to_set() =~= s.to_set().insert(x),
{
    assert forall|y: T| s.push(x).to_set().contains(y) <==> s.to_set().insert(x).contains(y) by {
        if s.push(x).contains(y) {
            let i = choose|i: int| 0 <= i < s.push(x).len() && s.push(x)[i] == y;
            if i < s.len() {
                assert(s[i] == y);
            }
        }
        if s.contains(y) {
            let i = choose|i: int| 0 <= i < s.len() && s[i] == y;
            assert(s.push(x)[i] == y);
        }
        if y == x {
            assert(s.push(x)[s.len() as int] == y);
        }
    }
}

/// Loads `files` into `index`: every file of at least `min_size` bytes adds
/// its fingerprint, taken over at most `head` bytes, to its directory.
pub fn load_files_info(files: &Vec<FileInfo>, min_size: usize, head: usize, index: &mut CorpusIndex)
    requires
        old(index).wf(),
    ensures
        final(index).wf(),
        final(index)@ == loaded(old(index)@, facts_of(files@), min_size as nat, head as nat),
{
    let ghost start = index@;
    proof {
        lemma_loaded_none(start, min_size as nat, head as nat);
        assert(facts_of(files@).take(0) =~= Seq::<FileFacts>::empty());
    }
    let mut n: usize = 0;
    while n < files.len()
        invariant
            n <= files.len(),
            index.wf(),
            index@ == loaded(start, facts_of(files@).take(n as int), min_size as nat, head as nat),
        decreases files.len() - n,
    {
        let _ = index.add_file(&files[n], min_size, head);
        proof {
            let all = facts_of(files@);
            assert(all.take(n + 1) =~= all.take(n as int).push(files[n as int]@));
            lemma_loaded_push(start, all.take(n as int), files[n as int]@, min_size as nat, head as nat);
        }
        n = n + 1;
    }
    proof {
        assert(facts_of(files@).take(n as int) =~= facts_of(files@));
    }
}

/// Whether `id` stands in `list`.
pub(crate) fn list_has(list: &Vec<usize>, id: usize) -> (found: bool)
    ensures
        found == (exists|a: int| 0 <= a < list.len() && #[trigger] list[a] == id),
{
    let mut a: usize = 0;
    while a < list.len()
        invariant
            a <= list.len(),
            forall|b: int| 0 <= b < a ==> #[trigger] list[b] != id,
        decreases list.len() - a,
    {
        if list[a] == id {
            return true;
        }
        a = a + 1;
    }
    false
}

} // verus!
