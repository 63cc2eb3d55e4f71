//! Texts, numbers, names and spans.
use icehorn::names::{NameMap, NameSet};
use icehorn::number::{decimal, parse_unsigned, push_padded, signed_decimal};
use icehorn::order::{comes_before, sorted_order};
use icehorn::text::{
    align_right, cut_at, has_inside, has_prefix, has_suffix, push_column, replace_all,
    same_ignoring_case, same_text, strip_front, tail_of, trimmed, without_leading,
    without_trailing,
};
use icehorn::time::{Moment, Span};

#[test]
fn replacing_goes_on_behind_each_match() {
    for (s, from, to) in [
        ("aaa", "aa", "b"),
        ("abcabc", "abc", ""),
        ("abc", "", "-"),
        ("", "", "x"),
        ("héllo", "l", "ll"),
        ("no match", "zz", "y"),
        ("s3://a/s3://a", "s3://a", "s3://a/b"),
    ] {
        assert_eq!(replace_all(s, from, to), s.replace(from, to), "{s} {from} {to}");
    }
}

#[test]
fn texts_are_taken_apart() {
    assert!(has_prefix("abc", "ab") && !has_prefix("abc", "b"));
    assert!(has_suffix("abc", "bc") && !has_suffix("abc", "abcd"));
    assert!(has_inside("abc", "b") && has_inside("abc", "") && !has_inside("abc", "ac"));
    assert_eq!(strip_front("abc", "a"), Some("bc"));
    assert_eq!(strip_front("abc", "b"), None);
    assert_eq!(cut_at("a=b=c", '='), Some(("a", "b=c")));
    assert_eq!(cut_at("abc", '='), None);
    assert_eq!(tail_of("a/b/c", '/'), "c");
    assert_eq!(tail_of("a/", '/'), "");
    assert_eq!(without_trailing("a//", '/'), "a");
    assert_eq!(without_leading("//a/", '/'), "a/");
    assert!(same_text("é", "é") && !same_text("é", "e"));
    assert!(same_ignoring_case("TrUe", "true") && !same_ignoring_case("true", "tru"));
}

#[test]
fn trimming_takes_all_white_space() {
    for s in ["  a b\t", "\r\n", "", "\u{a0}x\u{3000}", "\u{2028}y\u{85}", "\u{200b}z"] {
        assert_eq!(trimmed(s), s.trim());
    }
}

#[test]
fn columns_are_filled_up() {
    assert_eq!(align_right("7", 3), "  7");
    assert_eq!(align_right("1234", 3), "1234");
    let mut line = "[".to_string();
    push_column(&mut line, "é", '.', 3);
    assert_eq!(line, "[é..");
}

#[test]
fn numbers_are_written_and_read() {
    for n in [0u64, 7, 10, 4294967295, u64::MAX] {
        assert_eq!(decimal(n), n.to_string());
    }
    for n in [0i64, -1, i64::MIN, i64::MAX] {
        assert_eq!(signed_decimal(n), n.to_string());
    }
    let mut out = String::new();
    push_padded(&mut out, 42, 5);
    assert_eq!(out, "00042");
    for s in ["0", "007", "+5", "4294967295", "4294967296", "", "+", "-1", "1x", "٣"] {
        assert_eq!(parse_unsigned(s), s.parse::<u32>().ok(), "{s}");
    }
}

#[test]
fn names_are_kept_once_in_their_order() {
    let mut set = NameSet::new();
    assert!(set.insert("b".to_string()));
    assert!(set.insert("a".to_string()));
    assert!(!set.insert("b".to_string()));
    set.insert_all(&vec!["c".to_string(), "a".to_string()]);
    assert_eq!(set.len(), 3);
    assert!(set.contains("c") && !set.contains("d"));
    assert_eq!(set.into_names(), vec!["b", "a", "c"]);

    let mut map: NameMap<u64> = NameMap::new();
    map.insert("x".to_string(), 1);
    map.insert("x".to_string(), 2);
    assert_eq!(map.get("x"), Some(&2));
    assert_eq!(map.len(), 1);
    assert!(map.get("y").is_none() && map.contains("x"));
}

#[test]
fn names_are_sorted_as_texts() {
    assert!(comes_before("a", "ab") && comes_before("Z", "a") && !comes_before("a", "a"));
    let names: Vec<String> = ["b", "a", "é", "", "a"].iter().map(|s| s.to_string()).collect();
    let order = sorted_order(&names);
    let sorted: Vec<&str> = order.iter().map(|i| names[*i].as_str()).collect();
    assert_eq!(sorted, vec!["", "a", "a", "b", "é"]);
    assert_eq!(order, vec![3, 1, 4, 0, 2]);
}

#[test]
fn spans_hold_seconds_and_nanoseconds() {
    let span = Span::from_millis(1_500);
    assert_eq!((span.as_secs(), span.subsec_nanos(), span.as_millis()), (1, 500_000_000, 1_500));
    let a = Moment::at(Span::from_secs(5));
    let b = Moment::at(Span::from_millis(7_250));
    assert_eq!(b.saturating_since(a).as_millis(), 2_250);
    assert_eq!(a.saturating_since(b).as_millis(), 0);
    assert_eq!(Span::from_parts(3, 9).subsec_nanos(), 9);
}
