use cam_shim::order::{sort_dedup, sort_texts};
use cam_shim::split::{file_name, lines, split, split_once, words};
use cam_shim::table::Table;
use cam_shim::text::{
    concat3, contains, decimal_of, ends_with, join, parse_number, parse_u32, starts_with,
    strip_prefix, strip_suffix, trim,
};

fn texts(list: &[&str]) -> Vec<String> {
    list.iter().map(|s| s.to_string()).collect()
}

#[test]
fn numbers_are_written_and_read_back() {
    for n in [0u64, 7, 10, 99, 4_294_967_295] {
        assert_eq!(decimal_of(n), n.to_string());
        assert_eq!(parse_u32(&decimal_of(n)), Some(n as u32));
    }
    assert_eq!(decimal_of(u64::MAX), u64::MAX.to_string());
    assert_eq!(parse_u32("4294967296"), None);
    assert_eq!(parse_u32("+5"), Some(5));
    assert_eq!(parse_u32("-5"), None);
    assert_eq!(parse_u32(""), None);
    assert_eq!(parse_u32("+"), None);
    assert_eq!(parse_u32("5a"), None);
    assert_eq!(parse_number("0099", 99), Some(99));
    assert_eq!(parse_number("100", 99), None);
}

#[test]
fn texts_are_compared_and_cut() {
    assert!(starts_with("video10", "video") && !starts_with("vid", "video"));
    assert!(ends_with("a -", " -") && !ends_with("-", " -"));
    assert!(contains("xLinux Stdx", "Linux Std") && contains("", "") && !contains("ab", "ba"));
    assert_eq!(strip_prefix("webcam: ä", "webcam: "), Some("ä".to_string()));
    assert_eq!(strip_suffix("a (deleted)", " (deleted)"), Some("a".to_string()));
    assert_eq!(strip_suffix("a", " (deleted)"), None);
    for text in ["", "  ", " a b\t\n", "\u{a0}x\u{2003}", "\u{85}y\u{3000}"] {
        assert_eq!(trim(text), text.trim());
    }
    assert_eq!(concat3("a", "ö", "c"), "aöc");
    assert_eq!(join(&texts(&["a", "b"]), ", "), "a, b");
    assert_eq!(join(&Vec::new(), ", "), "");
}

#[test]
fn texts_are_split() {
    assert_eq!(split("a::b", ':'), texts(&["a", "", "b"]));
    assert_eq!(split_once("a=b=c", '='), Some(("a".to_string(), "b=c".to_string())));
    assert_eq!(split_once("abc", '='), None);
    for text in ["", "a\nb", "a\r\nb\n", "a\n\nb\r", "\n", "x\r\r\n"] {
        let expected: Vec<&str> = text.lines().collect();
        assert_eq!(lines(text), expected);
    }
    for text in ["", " a  b\tc ", "a"] {
        let expected: Vec<&str> = text.split_whitespace().collect();
        assert_eq!(words(text), expected);
    }
    assert_eq!(file_name("/dev/video0"), Some("video0".to_string()));
    assert_eq!(file_name("/dev/video0/"), Some("video0".to_string()));
    assert_eq!(file_name("/"), None);
    assert_eq!(file_name(".."), None);
    for path in ["", ".", "./", "/.", "a/.", "a/./.", "a/..", "../a", "//x//", "./a", "a/.b", "a /", "/a/../b/.", "..."] {
        let expected = std::path::Path::new(path)
            .file_name()
            .map(|name| name.to_string_lossy().into_owned());
        assert_eq!(file_name(path), expected, "{path}");
    }
}

#[test]
fn texts_are_sorted_by_their_characters() {
    let list = texts(&["b", "video10", "video2", "ä", "B", "video2", ""]);
    let mut expected = list.clone();
    expected.sort();
    assert_eq!(sort_texts(&list), expected);
    expected.dedup();
    assert_eq!(sort_dedup(&list), expected);
}

#[test]
fn table_keeps_one_value_per_key() {
    let mut table: Table<u32> = Table::new();
    table.insert("a".into(), 1);
    table.insert("b".into(), 2);
    table.insert("a".into(), 3);
    assert_eq!(table.len(), 2);
    assert_eq!(table.get("a"), Some(&3));
    assert_eq!(table.get("c"), None);
    assert!(table.contains_key("b"));
    table.remove("b");
    assert!(!table.contains_key("b"));
    assert_eq!((table.key_at(0).as_str(), table.value_at(0)), ("a", &3));
}
