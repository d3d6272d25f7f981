use rnote::text::{pair_up, parse_i32, parse_u32, split_on_spaces, str_eq};

#[test]
fn split_keeps_empty_pieces() {
    assert_eq!(split_on_spaces("1 2.5 3"), vec!["1", "2.5", "3"]);
    assert_eq!(split_on_spaces("a  b"), vec!["a", "", "b"]);
    assert_eq!(split_on_spaces(""), vec![""]);
    assert_eq!(split_on_spaces(" x "), vec!["", "x", ""]);
    assert_eq!(split_on_spaces("a\tb"), vec!["a\tb"]);
}

#[test]
fn pairs_of_consecutive_items() {
    assert_eq!(pair_up(&vec![1, 2, 3, 4]), vec![(1, 2), (3, 4)]);
    assert_eq!(pair_up(&vec![1, 2, 3]), vec![(1, 2)]);
    assert_eq!(pair_up::<u8>(&vec![]), vec![]);
    assert_eq!(pair_up(&vec![7]), vec![]);
}

#[test]
fn signed_decimal() {
    assert_eq!(parse_i32("255"), Some(255));
    assert_eq!(parse_i32("+7"), Some(7));
    assert_eq!(parse_i32("-2147483648"), Some(i32::MIN));
    assert_eq!(parse_i32("2147483647"), Some(i32::MAX));
    assert_eq!(parse_i32("2147483648"), None);
    assert_eq!(parse_i32("-2147483649"), None);
    assert_eq!(parse_i32(""), None);
    assert_eq!(parse_i32("-"), None);
    assert_eq!(parse_i32("+"), None);
    assert_eq!(parse_i32(" 1"), None);
    assert_eq!(parse_i32("1a"), None);
    for s in ["0", "-0", "00012", "-99999", "123456789"] {
        assert_eq!(parse_i32(s), s.parse::<i32>().ok());
    }
}

#[test]
fn unsigned_radix() {
    assert_eq!(parse_u32("12", 10), Some(12));
    assert_eq!(parse_u32("4294967295", 10), Some(u32::MAX));
    assert_eq!(parse_u32("4294967296", 10), None);
    assert_eq!(parse_u32("-1", 10), None);
    assert_eq!(parse_u32("+1", 10), Some(1));
    assert_eq!(parse_u32("ffffffff", 16), Some(u32::MAX));
    assert_eq!(parse_u32("FF", 16), Some(255));
    assert_eq!(parse_u32("z", 36), Some(35));
    for s in ["0", "10", "+10", "a", "7fffffff", "100000000", "", "+", "x1"] {
        assert_eq!(parse_u32(s, 16), u32::from_str_radix(s, 16).ok());
    }
}

#[test]
fn string_equality() {
    assert!(str_eq("pen", "pen"));
    assert!(!str_eq("pen", "pens"));
    assert!(!str_eq("é", "e"));
}
