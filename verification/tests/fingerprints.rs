use dupdirs::fingerprint::{get_crc32_checksum, get_hash, HeadChecksum, BUF_SIZE};

fn pattern(len: usize) -> Vec<u8> {
    let mut bytes = Vec::with_capacity(len);
    for i in 0..len {
        bytes.push((i * 31 % 251) as u8);
    }
    bytes
}

#[test]
fn checksum_of_known_text() {
    assert_eq!(get_crc32_checksum(b"123456789", 0), 0xCBF4_3926);
}

#[test]
fn checksum_of_nothing_is_zero() {
    assert_eq!(get_crc32_checksum(b"", 0), 0);
    assert_eq!(get_crc32_checksum(b"", 1024), 0);
}

#[test]
fn checksum_agrees_with_one_pass() {
    let content = pattern(5000);
    assert_eq!(get_crc32_checksum(&content, 0), crc32fast::hash(&content));
}

#[test]
fn checksum_reads_no_more_than_the_head() {
    let content = pattern(5000);
    assert_eq!(get_crc32_checksum(&content, 1024), crc32fast::hash(&content[..1024]));
    assert_eq!(get_crc32_checksum(&content, 1500), crc32fast::hash(&content[..1500]));
    assert_eq!(get_crc32_checksum(&content, 2048), crc32fast::hash(&content[..2048]));
    assert_eq!(get_crc32_checksum(&content, 1), crc32fast::hash(&content[..1]));
}

#[test]
fn checksum_of_a_file_shorter_than_the_head_covers_all_of_it() {
    let content = pattern(700);
    assert_eq!(get_crc32_checksum(&content, 1024), crc32fast::hash(&content));
    assert_eq!(get_crc32_checksum(&content, 700), crc32fast::hash(&content));
}

#[test]
fn checksum_at_chunk_boundaries() {
    for len in [BUF_SIZE - 1, BUF_SIZE, BUF_SIZE + 1, 2 * BUF_SIZE, 2 * BUF_SIZE + 1] {
        let content = pattern(len);
        assert_eq!(get_crc32_checksum(&content, 0), crc32fast::hash(&content));
    }
}

#[test]
fn hash_is_checksum_plus_size() {
    assert_eq!(get_hash(b"123456789", 9, 0), 0xCBF4_3926u64 + 9);
    assert_eq!(get_hash(b"123456789", 2000, 1024), 0xCBF4_3926u64 + 2000);
    assert_eq!(get_hash(b"", 0, 0), 0);
}

#[test]
fn hash_wraps_in_64_bits() {
    assert_eq!(get_hash(b"123456789", usize::MAX, 0), 0xCBF4_3926u64 - 1);
}

#[test]
fn hash_tells_sizes_apart() {
    let content = pattern(1024);
    assert_ne!(get_hash(&content, 3000, 1024), get_hash(&content, 4000, 1024));
}

#[test]
fn same_head_other_size_gives_other_hash() {
    let mut one = pattern(3000);
    let mut other = pattern(4000);
    for i in 2000..3000 {
        one[i] = 1;
        other[i] = 2;
    }
    assert_eq!(one[..1024], other[..1024]);
    assert_eq!(get_crc32_checksum(&one, 1024), get_crc32_checksum(&other, 1024));
    assert_ne!(get_hash(&one, 3000, 1024), get_hash(&other, 4000, 1024));
}

#[test]
fn stream_in_pieces() {
    let content = pattern(3000);
    let mut checksum = HeadChecksum::new(0);
    checksum.feed(&content[..10]);
    checksum.feed(&content[10..2000]);
    checksum.feed(&content[2000..]);
    assert_eq!(checksum.finish(), crc32fast::hash(&content));
}

#[test]
fn stream_stops_at_the_head() {
    let content = pattern(3000);
    let mut checksum = HeadChecksum::new(1500);
    assert_eq!(checksum.remaining(), 1500);
    checksum.feed(&content[..1024]);
    assert_eq!(checksum.remaining(), 476);
    checksum.feed(&content[1024..2048]);
    assert_eq!(checksum.remaining(), 0);
    checksum.feed(&content[2048..]);
    assert_eq!(checksum.remaining(), 0);
    assert_eq!(checksum.finish(), crc32fast::hash(&content[..1500]));
}

#[test]
fn stream_without_a_head_takes_everything() {
    let checksum = HeadChecksum::new(0);
    assert_eq!(checksum.remaining(), usize::MAX);
    assert_eq!(checksum.finish(), 0);
}
