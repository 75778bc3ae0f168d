use dupdirs::index::{load_files_info, CorpusIndex, FileInfo};
use dupdirs::overlap::{find_duplicates, Duplicate};
use dupdirs::rank::{rank, ranks_first, sort_ranked};
use dupdirs::report::{duplicate_line, duplicate_lines, ranked_duplicates};

fn record(dir1: &str, dir2: &str, n1: usize, n2: usize, intersection: usize) -> Duplicate {
    Duplicate {
        dir1: dir1.to_string(),
        dir2: dir2.to_string(),
        dir1_files_number: n1,
        dir2_files_number: n2,
        intersection,
    }
}

fn index_of(entries: &[(&str, u64)]) -> CorpusIndex {
    let mut index = CorpusIndex::new();
    for (dir, hash) in entries {
        index.insert(dir, *hash);
    }
    index
}

fn by_pair(mut found: Vec<Duplicate>) -> Vec<Duplicate> {
    found.sort_by(|x, y| (&x.dir1, &x.dir2).cmp(&(&y.dir1, &y.dir2)));
    found
}

#[test]
fn nothing_found_in_an_empty_index() {
    assert!(find_duplicates(&CorpusIndex::new()).is_empty());
    assert!(ranked_duplicates(&CorpusIndex::new(), 0).is_empty());
}

#[test]
fn nothing_found_without_a_shared_fingerprint() {
    let index = index_of(&[("/a", 1), ("/a", 2), ("/b", 3)]);
    assert!(find_duplicates(&index).is_empty());
}

#[test]
fn two_directories_one_file_each() {
    let content = vec![7u8; 2000];
    let files = vec![
        FileInfo { dir: "/x/one".to_string(), size: 2000, content: content.clone() },
        FileInfo { dir: "/x/two".to_string(), size: 2000, content },
    ];
    let mut index = CorpusIndex::new();
    load_files_info(&files, 1, 1024, &mut index);
    let found = ranked_duplicates(&index, 1);
    assert_eq!(found, vec![record("/x/one", "/x/two", 1, 1, 1)]);
}

#[test]
fn same_head_other_size_is_no_match() {
    let mut one = vec![5u8; 3000];
    let mut other = vec![5u8; 4000];
    one[2500] = 1;
    other[2500] = 2;
    let files = vec![
        FileInfo { dir: "/one".to_string(), size: 3000, content: one },
        FileInfo { dir: "/two".to_string(), size: 4000, content: other },
    ];
    let mut index = CorpusIndex::new();
    load_files_info(&files, 1, 1024, &mut index);
    assert!(index.contains_dir("/one"));
    assert!(index.contains_dir("/two"));
    assert!(find_duplicates(&index).is_empty());
}

#[test]
fn three_directories_one_pair_above_the_threshold() {
    let mut entries: Vec<(&str, u64)> = Vec::new();
    for hash in 0..5u64 {
        entries.push(("A", hash));
        entries.push(("B", hash));
    }
    for hash in 10..13u64 {
        entries.push(("A", hash));
        entries.push(("C", hash));
    }
    let index = index_of(&entries);
    let all = by_pair(find_duplicates(&index));
    assert_eq!(all, vec![record("A", "B", 8, 5, 5), record("A", "C", 8, 3, 3)]);
    let found = ranked_duplicates(&index, 4);
    assert_eq!(found, vec![record("A", "B", 8, 5, 5)]);
}

#[test]
fn every_pair_of_one_fingerprint_is_found() {
    let index = index_of(&[("/d", 1), ("/b", 1), ("/a", 1), ("/c", 1)]);
    let found = by_pair(find_duplicates(&index));
    assert_eq!(
        found,
        vec![
            record("/a", "/b", 1, 1, 1),
            record("/a", "/c", 1, 1, 1),
            record("/a", "/d", 1, 1, 1),
            record("/b", "/c", 1, 1, 1),
            record("/b", "/d", 1, 1, 1),
            record("/c", "/d", 1, 1, 1),
        ]
    );
}

#[test]
fn pair_is_reported_once_however_much_it_shares() {
    let index = index_of(&[("/b", 1), ("/a", 1), ("/a", 2), ("/b", 2), ("/b", 3), ("/a", 3), ("/a", 4)]);
    let found = find_duplicates(&index);
    assert_eq!(found, vec![record("/a", "/b", 4, 3, 3)]);
}

#[test]
fn smaller_path_stands_first() {
    let index = index_of(&[("/z", 1), ("/y", 1), ("/y", 2)]);
    assert_eq!(find_duplicates(&index), vec![record("/y", "/z", 2, 1, 1)]);
    let index = index_of(&[("/y", 1), ("/z", 1), ("/y", 2)]);
    assert_eq!(find_duplicates(&index), vec![record("/y", "/z", 2, 1, 1)]);
}

#[test]
fn intersection_is_bounded_by_both_counts() {
    let mut entries: Vec<(String, u64)> = Vec::new();
    for d in 0..6u64 {
        for hash in 0..20u64 {
            if (hash * 7 + d * 3) % 4 < 2 {
                entries.push((format!("/dir{}", d), hash));
            }
        }
    }
    let mut index = CorpusIndex::new();
    for (dir, hash) in entries.iter() {
        index.insert(dir, *hash);
    }
    let found = find_duplicates(&index);
    assert!(!found.is_empty());
    for d in found.iter() {
        assert!(d.intersection >= 1);
        assert!(d.intersection <= d.dir1_files_number);
        assert!(d.intersection <= d.dir2_files_number);
        assert!(d.dir1 < d.dir2);
        assert_eq!(d.dir1_files_number, index.fingerprint_count(&d.dir1));
        assert_eq!(d.dir2_files_number, index.fingerprint_count(&d.dir2));
        let mut common = 0;
        for hash in 0..20u64 {
            if index.contains(&d.dir1, hash) && index.contains(&d.dir2, hash) {
                common += 1;
            }
        }
        assert_eq!(d.intersection, common);
    }
    for (i, x) in found.iter().enumerate() {
        for (j, y) in found.iter().enumerate() {
            if i != j {
                assert!(!(x.dir1 == y.dir1 && x.dir2 == y.dir2));
                assert!(!(x.dir1 == y.dir2 && x.dir2 == y.dir1));
            }
        }
    }
}

#[test]
fn report_is_independent_of_the_order_of_insertion() {
    let entries = [("/a", 1u64), ("/b", 1), ("/c", 1), ("/a", 2), ("/c", 2), ("/b", 3), ("/d", 3), ("/a", 4)];
    let forward = index_of(&entries);
    let mut reversed = entries.to_vec();
    reversed.reverse();
    let backward = index_of(&reversed);
    assert_eq!(by_pair(find_duplicates(&forward)), by_pair(find_duplicates(&backward)));
    assert_eq!(ranked_duplicates(&forward, 1), ranked_duplicates(&backward, 1));
    assert_eq!(
        ranked_duplicates(&forward, 1),
        vec![
            record("/a", "/c", 3, 2, 2),
            record("/a", "/b", 3, 2, 1),
            record("/b", "/c", 2, 2, 1),
            record("/b", "/d", 2, 1, 1),
        ]
    );
}

#[test]
fn rank_drops_what_is_below_the_threshold() {
    let all = vec![
        record("/a", "/b", 9, 9, 3),
        record("/a", "/c", 9, 9, 10),
        record("/b", "/c", 9, 9, 4),
        record("/c", "/d", 9, 9, 5),
    ];
    let ranking = rank(all.clone(), 4);
    assert_eq!(
        ranking,
        vec![record("/a", "/c", 9, 9, 10), record("/c", "/d", 9, 9, 5), record("/b", "/c", 9, 9, 4)]
    );
    assert!(rank(all.clone(), 11).is_empty());
    assert_eq!(rank(all, 0).len(), 4);
}

#[test]
fn rank_orders_by_descending_intersection() {
    let mut all = Vec::new();
    for n in 0..50usize {
        all.push(record(&format!("/a{}", n), &format!("/b{}", n), 100, 100, (n * 37) % 23));
    }
    let ranking = rank(all.clone(), 5);
    for pair in ranking.windows(2) {
        assert!(pair[0].intersection >= pair[1].intersection);
    }
    for d in ranking.iter() {
        assert!(d.intersection >= 5);
    }
    let expected = all.iter().filter(|d| d.intersection >= 5).count();
    assert_eq!(ranking.len(), expected);
    for d in all.iter().filter(|d| d.intersection >= 5) {
        assert_eq!(ranking.iter().filter(|r| *r == d).count(), 1);
    }
}

#[test]
fn rank_breaks_ties_by_path() {
    let all = vec![
        record("/b", "/c", 1, 1, 2),
        record("/a", "/z", 1, 1, 2),
        record("/a", "/c", 1, 1, 2),
        record("/a", "/b", 1, 1, 1),
    ];
    assert_eq!(
        rank(all, 1),
        vec![
            record("/a", "/c", 1, 1, 2),
            record("/a", "/z", 1, 1, 2),
            record("/b", "/c", 1, 1, 2),
            record("/a", "/b", 1, 1, 1),
        ]
    );
}

#[test]
fn rank_keeps_equal_records() {
    let all = vec![record("/a", "/b", 1, 1, 2), record("/a", "/b", 1, 1, 2)];
    assert_eq!(rank(all.clone(), 1), all);
}

#[test]
fn rank_of_nothing_is_nothing() {
    assert!(rank(Vec::new(), 0).is_empty());
    assert!(sort_ranked(Vec::new()).is_empty());
}

#[test]
fn ranks_first_compares_intersection_then_paths() {
    assert!(ranks_first(&record("/b", "/c", 1, 1, 3), &record("/a", "/b", 1, 1, 2)));
    assert!(!ranks_first(&record("/a", "/b", 1, 1, 2), &record("/b", "/c", 1, 1, 3)));
    assert!(ranks_first(&record("/a", "/b", 1, 1, 2), &record("/b", "/c", 1, 1, 2)));
    assert!(ranks_first(&record("/a", "/b", 1, 1, 2), &record("/a", "/c", 1, 1, 2)));
    assert!(!ranks_first(&record("/a", "/b", 1, 1, 2), &record("/a", "/b", 5, 5, 2)));
}

#[test]
fn line_of_a_duplicate() {
    let d = record("/data/a", "/data/b", 12, 7, 5);
    assert_eq!(duplicate_line(&d), "/data/a: 12 - /data/b: 7 | 5");
    let d = record("x", "y", 0, 1000, 10203);
    assert_eq!(duplicate_line(&d), "x: 0 - y: 1000 | 10203");
    let d = record("", "", usize::MAX, 9, 10);
    assert_eq!(duplicate_line(&d), format!(": {} - : 9 | 10", usize::MAX));
}

#[test]
fn lines_of_a_report() {
    let report = vec![record("/a", "/b", 3, 2, 2), record("/a", "/c", 3, 1, 1)];
    assert_eq!(duplicate_lines(&report), vec!["/a: 3 - /b: 2 | 2".to_string(), "/a: 3 - /c: 1 | 1".to_string()]);
    assert!(duplicate_lines(&Vec::new()).is_empty());
}
