use dungeon_crawler::text::{numbered_id, read_i32, read_number, read_u32, same_text, u64_to_string};

#[test]
fn decimal_notation_of_small_and_large_numbers() {
    assert_eq!(u64_to_string(0), "0");
    assert_eq!(u64_to_string(9), "9");
    assert_eq!(u64_to_string(10), "10");
    assert_eq!(u64_to_string(907), "907");
    assert_eq!(u64_to_string(1_000_000), "1000000");
    assert_eq!(u64_to_string(u64::MAX), "18446744073709551615");
}

#[test]
fn decimal_notation_agrees_with_std() {
    let samples: Vec<u64> = vec![1, 12, 123, 99, 100, 101, 4096, 65535, 4294967296, 9999999999];
    for n in samples {
        assert_eq!(u64_to_string(n), n.to_string());
    }
}

#[test]
fn numbered_id_appends_the_number_to_the_prefix() {
    assert_eq!(numbered_id("consumable_", 0), "consumable_0");
    assert_eq!(numbered_id("monster_", 17), "monster_17");
    assert_eq!(numbered_id("", 5), "5");
}

#[test]
fn same_text_compares_contents() {
    assert!(same_text(&"player".to_string(), "player"));
    assert!(!same_text(&"player".to_string(), "Player"));
    assert!(!same_text(&"player".to_string(), "players"));
    assert!(same_text(&String::new(), ""));
}

#[test]
fn read_i32_accepts_signed_decimal_numbers() {
    assert_eq!(read_i32("42"), Some(42));
    assert_eq!(read_i32("-17"), Some(-17));
    assert_eq!(read_i32("+5"), Some(5));
    assert_eq!(read_i32("007"), Some(7));
    assert_eq!(read_i32("0"), Some(0));
    assert_eq!(read_i32("-0"), Some(0));
}

#[test]
fn read_i32_rejects_what_is_no_number() {
    assert_eq!(read_i32(""), None);
    assert_eq!(read_i32("-"), None);
    assert_eq!(read_i32("+"), None);
    assert_eq!(read_i32("12a"), None);
    assert_eq!(read_i32(" 5"), None);
    assert_eq!(read_i32("5 "), None);
    assert_eq!(read_i32("--5"), None);
    assert_eq!(read_i32("1.5"), None);
}

#[test]
fn read_i32_keeps_to_the_range() {
    assert_eq!(read_i32("2147483647"), Some(i32::MAX));
    assert_eq!(read_i32("2147483648"), None);
    assert_eq!(read_i32("-2147483648"), Some(i32::MIN));
    assert_eq!(read_i32("-2147483649"), None);
    assert_eq!(read_i32("99999999999999999999999999"), None);
}

#[test]
fn read_u32_has_no_negative_numbers() {
    assert_eq!(read_u32("0"), Some(0));
    assert_eq!(read_u32("+3"), Some(3));
    assert_eq!(read_u32("4294967295"), Some(u32::MAX));
    assert_eq!(read_u32("4294967296"), None);
    assert_eq!(read_u32("-1"), None);
    assert_eq!(read_u32("-0"), None);
    assert_eq!(read_u32(""), None);
}

#[test]
fn reading_numbers_agrees_with_std() {
    let samples = vec![
        "0", "1", "-1", "+1", "", "+", "-", "abc", "12", "0012", "-0012", "2147483647",
        "2147483648", "-2147483648", "-2147483649", "4294967295", "4294967296", "1e3", "x1",
        "1_000", "+-1", "9999999999",
    ];
    for s in samples {
        assert_eq!(read_i32(s), s.parse::<i32>().ok(), "i32 of {:?}", s);
        assert_eq!(read_u32(s), s.parse::<u32>().ok(), "u32 of {:?}", s);
    }
}

#[test]
fn read_number_applies_the_given_bounds() {
    assert_eq!(read_number("50", false, 0, 100), Some(50));
    assert_eq!(read_number("100", false, 0, 100), Some(100));
    assert_eq!(read_number("101", false, 0, 100), None);
    assert_eq!(read_number("-7", true, -10, 10), Some(-7));
    assert_eq!(read_number("-11", true, -10, 10), None);
    assert_eq!(read_number("-7", false, -10, 10), None);
}
