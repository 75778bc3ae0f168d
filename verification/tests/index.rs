use dupdirs::index::{load_files_info, CorpusIndex, FileInfo};
use dupdirs::fingerprint::get_hash;

fn file(dir: &str, content: &[u8]) -> FileInfo {
    FileInfo { dir: dir.to_string(), size: content.len(), content: content.to_vec() }
}

fn sorted(mut dirs: Vec<String>) -> Vec<String> {
    dirs.sort();
    dirs
}

#[test]
fn new_index_is_empty() {
    let index = CorpusIndex::new();
    assert!(!index.contains_dir("/a"));
    assert_eq!(index.fingerprint_count("/a"), 0);
    assert!(!index.contains("/a", 7));
    assert!(index.directories_with(7).is_empty());
}

#[test]
fn insert_records_both_ways() {
    let mut index = CorpusIndex::new();
    index.insert("/a", 7);
    index.insert("/b", 7);
    index.insert("/a", 9);
    assert!(index.contains_dir("/a"));
    assert!(index.contains_dir("/b"));
    assert!(!index.contains_dir("/c"));
    assert!(index.contains("/a", 7));
    assert!(index.contains("/a", 9));
    assert!(index.contains("/b", 7));
    assert!(!index.contains("/b", 9));
    assert_eq!(index.fingerprint_count("/a"), 2);
    assert_eq!(index.fingerprint_count("/b"), 1);
    assert_eq!(sorted(index.directories_with(7)), vec!["/a".to_string(), "/b".to_string()]);
    assert_eq!(index.directories_with(9), vec!["/a".to_string()]);
    assert!(index.directories_with(8).is_empty());
}

#[test]
fn insert_twice_counts_once() {
    let mut index = CorpusIndex::new();
    index.insert("/a", 7);
    index.insert("/a", 7);
    assert_eq!(index.fingerprint_count("/a"), 1);
    assert_eq!(index.directories_with(7), vec!["/a".to_string()]);
}

#[test]
fn mappings_agree() {
    let mut index = CorpusIndex::new();
    let dirs = ["/a", "/b", "/c", "/d"];
    for (n, dir) in dirs.iter().enumerate() {
        for hash in 0..6u64 {
            if (hash as usize + n) % 3 != 0 {
                index.insert(dir, hash);
            }
        }
    }
    for dir in dirs.iter() {
        for hash in 0..6u64 {
            let listed = index.directories_with(hash).contains(&dir.to_string());
            assert_eq!(listed, index.contains(dir, hash));
        }
    }
}

#[test]
fn add_file_takes_a_file_that_is_large_enough() {
    let mut index = CorpusIndex::new();
    let content = b"0123456789";
    assert!(index.add_file(&file("/a", content), 10, 0));
    assert!(index.contains("/a", get_hash(content, 10, 0)));
    assert_eq!(index.fingerprint_count("/a"), 1);
}

#[test]
fn small_file_is_left_out() {
    let mut index = CorpusIndex::new();
    assert!(!index.add_file(&file("/small", b"12345"), 10, 1024));
    assert!(!index.contains_dir("/small"));
    let files = vec![file("/small", b"12345")];
    load_files_info(&files, 10, 1024, &mut index);
    assert!(!index.contains_dir("/small"));
    assert_eq!(index.fingerprint_count("/small"), 0);
}

#[test]
fn small_file_beside_a_large_one() {
    let mut index = CorpusIndex::new();
    let files = vec![file("/d", b"12345"), file("/d", b"0123456789abc")];
    load_files_info(&files, 10, 0, &mut index);
    assert!(index.contains_dir("/d"));
    assert_eq!(index.fingerprint_count("/d"), 1);
    assert!(index.contains("/d", get_hash(b"0123456789abc", 13, 0)));
    assert!(!index.contains("/d", get_hash(b"12345", 5, 0)));
}

#[test]
fn size_comes_from_the_record() {
    let mut index = CorpusIndex::new();
    let info = FileInfo { dir: "/a".to_string(), size: 2000, content: b"head".to_vec() };
    assert!(index.add_file(&info, 1, 1024));
    assert!(index.contains("/a", get_hash(b"head", 2000, 1024)));
}

#[test]
fn load_is_independent_of_order() {
    let files = vec![
        file("/a", b"one one one"),
        file("/b", b"one one one"),
        file("/a", b"two two two"),
        file("/c", b"three three"),
        file("/b", b"three three"),
        file("/c", b"tiny"),
    ];
    let mut forward = CorpusIndex::new();
    load_files_info(&files, 5, 0, &mut forward);
    let mut backward = CorpusIndex::new();
    let mut reversed = files.clone();
    reversed.reverse();
    load_files_info(&reversed, 5, 0, &mut backward);
    for dir in ["/a", "/b", "/c", "/d"] {
        assert_eq!(forward.contains_dir(dir), backward.contains_dir(dir));
        assert_eq!(forward.fingerprint_count(dir), backward.fingerprint_count(dir));
        for f in files.iter() {
            let hash = get_hash(&f.content, f.size, 0);
            assert_eq!(forward.contains(dir, hash), backward.contains(dir, hash));
        }
    }
    assert_eq!(forward.fingerprint_count("/a"), 2);
    assert_eq!(forward.fingerprint_count("/b"), 2);
    assert_eq!(forward.fingerprint_count("/c"), 1);
}

#[test]
fn load_adds_to_what_is_there() {
    let mut index = CorpusIndex::new();
    index.insert("/a", 1);
    load_files_info(&vec![file("/a", b"content"), file("/b", b"content")], 1, 0, &mut index);
    assert_eq!(index.fingerprint_count("/a"), 2);
    assert_eq!(index.fingerprint_count("/b"), 1);
    assert!(index.contains("/a", 1));
}
