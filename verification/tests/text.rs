use gw2_arbitrage::text::{
    align_left, align_right, contains_same_text, find_text, first_non_white, has_text,
    is_text_before, join_texts, parse_number, replace_char, same_text, split_words, to_decimal,
    to_lower, to_padded_decimal, to_signed_decimal, to_wide_decimal, trim, truncate,
};

#[test]
fn numbers_in_decimal() {
    assert_eq!(to_decimal(0), "0");
    assert_eq!(to_decimal(u64::MAX), u64::MAX.to_string());
    assert_eq!(to_wide_decimal(u128::MAX), u128::MAX.to_string());
    assert_eq!(to_signed_decimal(-12), "-12");
    assert_eq!(to_signed_decimal(i128::MIN), i128::MIN.to_string());
    assert_eq!(to_signed_decimal(90), "90");
    assert_eq!(to_padded_decimal(7, 2), "07");
    assert_eq!(to_padded_decimal(-7, 4), "-007");
    assert_eq!(to_padded_decimal(12345, 4), "12345");
}

#[test]
fn truncation_flattens_first() {
    assert_eq!(truncate("  a\n b\tc  ", 10), "a b c");
    assert_eq!(truncate("abcdef", 3), "abc...");
    assert_eq!(truncate("abc", 3), "abc");
    assert_eq!(truncate("", 3), "");
    assert_eq!(split_words(" x  yz "), vec!["x".to_string(), "yz".to_string()]);
}

#[test]
fn texts_are_found() {
    assert_eq!(find_text("abcabc", "ca"), Some(2));
    assert_eq!(find_text("abc", "d"), None);
    assert!(has_text("all ids provided are invalid", "ids"));
    assert!(same_text("24h", "24h"));
    assert!(!same_text("24h", "24"));
    assert!(contains_same_text(&vec!["a".to_string(), "b".to_string()], "b"));
    assert!(!contains_same_text(&vec![], "b"));
}

#[test]
fn white_space_is_skipped() {
    assert_eq!(first_non_white(" \n<html>"), Some('<'));
    assert_eq!(first_non_white(" \t\n"), None);
    assert_eq!(trim("  key \n"), "key");
    assert_eq!(trim("   "), "");
    assert_eq!(trim("a b"), "a b");
}

#[test]
fn numbers_are_parsed_like_the_standard_library_does() {
    for s in ["0", "17", "+17", "-1", "", "+", "1a", "18446744073709551615", "18446744073709551616"] {
        assert_eq!(parse_number(s, u64::MAX), s.parse::<u64>().ok());
    }
    assert_eq!(parse_number("300", 255), None);
}

#[test]
fn texts_are_ordered_by_their_characters() {
    for (a, b) in [("a", "b"), ("", "a"), ("ab", "abc"), ("Z", "a"), ("a", "a"), ("é", "z")] {
        assert_eq!(is_text_before(a, b), a < b);
        assert_eq!(is_text_before(b, a), b < a);
    }
}

#[test]
fn texts_are_aligned() {
    assert_eq!(align_left("ab", 4), format!("{:<4}", "ab"));
    assert_eq!(align_right("ab", 4), format!("{:>4}", "ab"));
    assert_eq!(align_left("abcde", 4), "abcde");
    assert_eq!(align_right("é", 3), format!("{:>3}", "é"));
}

#[test]
fn texts_are_joined_and_replaced() {
    assert_eq!(join_texts(&vec!["a".to_string(), "b".to_string()], ", "), "a, b");
    assert_eq!(join_texts(&vec![], ", "), "");
    assert_eq!(replace_char("Bowl of Soup", ' ', "%20"), "Bowl%20of%20Soup");
}

#[test]
fn lower_case_is_taken_from_the_standard_library() {
    assert_eq!(to_lower("ÀBC Straße"), "àbc straße");
}
