use dupdirs::config::{coerce_head, parse_size, resolve, settle, size_from, ConfigError, Settings};
use dupdirs::paths::{path_less, path_order, same_path, PathOrder};

#[test]
fn sizes_written_for_people() {
    assert_eq!(parse_size("1"), Some(1));
    assert_eq!(parse_size("0"), Some(0));
    assert_eq!(parse_size("1024"), Some(1024));
    assert_eq!(parse_size("1K"), Some(1000));
    assert_eq!(parse_size("1KiB"), Some(1024));
    assert_eq!(parse_size("2 MB"), Some(2_000_000));
    assert_eq!(parse_size(" 3Mi "), Some(3 << 20));
}

#[test]
fn sizes_that_cannot_be_read() {
    assert_eq!(parse_size(""), None);
    assert_eq!(parse_size("abc"), None);
    assert_eq!(parse_size("KB"), None);
    assert_eq!(parse_size("12 parsecs"), None);
    assert_eq!(parse_size("-1"), None);
    assert_eq!(parse_size("99999999999999999999999"), None);
    assert_eq!(parse_size("100EB"), None);
}

#[test]
fn sizes_outside_ascii_are_refused() {
    assert_eq!(parse_size("\u{bd}K"), None);
    assert_eq!(parse_size("1\u{212a}"), None);
    assert_eq!(parse_size("1 \u{43a}\u{431}"), None);
}

#[test]
fn size_must_fit() {
    assert_eq!(size_from(Some(5)), Some(5));
    assert_eq!(size_from(None), None);
    if usize::MAX as u128 == u64::MAX as u128 {
        assert_eq!(size_from(Some(u64::MAX)), Some(usize::MAX));
    } else {
        assert_eq!(size_from(Some(u64::MAX)), None);
    }
}

#[test]
fn weak_heads_are_replaced() {
    assert_eq!(coerce_head(0), (0, false));
    assert_eq!(coerce_head(1), (1024, true));
    assert_eq!(coerce_head(500), (1024, true));
    assert_eq!(coerce_head(999), (1024, true));
    assert_eq!(coerce_head(1000), (1000, false));
    assert_eq!(coerce_head(1024), (1024, false));
    assert_eq!(coerce_head(4096), (4096, false));
}

#[test]
fn settings_from_text() {
    assert_eq!(
        resolve("1", "1024", 10),
        Ok(Settings { min_size: 1, head: 1024, head_coerced: false, min_intersection: 10 })
    );
    assert_eq!(
        resolve("4KiB", "0", 1),
        Ok(Settings { min_size: 4096, head: 0, head_coerced: false, min_intersection: 1 })
    );
    assert_eq!(
        resolve("10", "512", 3),
        Ok(Settings { min_size: 10, head: 1024, head_coerced: true, min_intersection: 3 })
    );
}

#[test]
fn settings_name_the_option_that_failed() {
    assert_eq!(resolve("big", "1024", 10), Err(ConfigError::InvalidMinSize));
    assert_eq!(resolve("1", "long", 10), Err(ConfigError::InvalidHead));
    assert_eq!(resolve("big", "long", 10), Err(ConfigError::InvalidMinSize));
    assert_eq!(settle(None, Some(1), 1), Err(ConfigError::InvalidMinSize));
    assert_eq!(settle(Some(1), None, 1), Err(ConfigError::InvalidHead));
    assert_eq!(
        settle(Some(2), Some(3), 4),
        Ok(Settings { min_size: 2, head: 1024, head_coerced: true, min_intersection: 4 })
    );
}

#[test]
fn error_messages() {
    assert_eq!(ConfigError::InvalidMinSize.message(), "Invalid value for '--min-size'");
    assert_eq!(ConfigError::InvalidHead.message(), "Invalid value for '--head'");
}

#[test]
fn paths_are_ordered_byte_by_byte() {
    assert_eq!(path_order("/a", "/b"), PathOrder::Before);
    assert_eq!(path_order("/b", "/a"), PathOrder::After);
    assert_eq!(path_order("/a", "/a"), PathOrder::Same);
    assert_eq!(path_order("/a", "/a/b"), PathOrder::Before);
    assert_eq!(path_order("/a/b", "/a"), PathOrder::After);
    assert_eq!(path_order("", ""), PathOrder::Same);
    assert_eq!(path_order("", "a"), PathOrder::Before);
    assert_eq!(path_order("/a.b", "/a/b"), PathOrder::Before);
    assert_eq!(path_order("/Z", "/a"), PathOrder::Before);
    assert_eq!(path_order("/\u{e9}", "/z"), PathOrder::After);
}

#[test]
fn path_order_agrees_with_the_order_of_strings() {
    let paths = ["", "/", "/a", "/a/b", "/a.b", "/ab", "/b", "/\u{e9}", "/\u{4e2d}", "/a\u{0}"];
    for a in paths {
        for b in paths {
            assert_eq!(path_less(a, b), a < b);
            assert_eq!(same_path(a, b), a == b);
        }
    }
}
