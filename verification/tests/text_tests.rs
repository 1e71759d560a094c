use check_av1_encode::decimal::{i32_text, parse_i32, parse_usize, usize_text};
use check_av1_encode::text::{chars_of, replace_all, same_text, split_chars, string_of};

#[test]
fn replace_all_left_to_right_without_overlap() {
    assert_eq!(replace_all("aaa", "aa", "b"), "ba");
    assert_eq!(replace_all("xINPUTyINPUT", "INPUT", "1"), "x1y1");
    assert_eq!(replace_all("abc", "z", "y"), "abc");
    assert_eq!(replace_all("ab", "", "-"), "-a-b-");
    assert_eq!(replace_all("", "", "-"), "-");
    assert_eq!(replace_all("ab", "abc", "-"), "ab");
    assert_eq!(replace_all("héllo", "é", "e"), "hello");
}

#[test]
fn split_chars_like_str_split() {
    let cs = chars_of("a b  c");
    let pieces: Vec<String> = split_chars(&cs, ' ').iter().map(|p| string_of(p)).collect();
    assert_eq!(pieces, vec!["a", "b", "", "c"]);
    let pieces = split_chars(&chars_of(""), ' ');
    assert_eq!(pieces.len(), 1);
    assert!(pieces[0].is_empty());
}

#[test]
fn string_of_and_chars_of() {
    let cs = chars_of("ab→c");
    assert_eq!(cs, vec!['a', 'b', '→', 'c']);
    assert_eq!(string_of(&cs), "ab→c");
}

#[test]
fn same_text_compares_characters() {
    assert!(same_text("smallest", "smallest"));
    assert!(!same_text("smallest", "Smallest"));
    assert!(!same_text("small", "smallest"));
}

#[test]
fn i32_text_writes_decimal() {
    assert_eq!(i32_text(0), "0");
    assert_eq!(i32_text(45), "45");
    assert_eq!(i32_text(-7), "-7");
    assert_eq!(i32_text(i32::MIN), i32::MIN.to_string());
    assert_eq!(i32_text(i32::MAX), i32::MAX.to_string());
    assert_eq!(usize_text(0), "0");
    assert_eq!(usize_text(1234567), "1234567");
}

#[test]
fn parse_i32_like_std() {
    for s in [
        "0", "42", "-42", "+42", "007", "-0", "2147483647", "-2147483648", "2147483648",
        "-2147483649", "", "+", "-", "4 2", " 42", "42 ", "4a", "99999999999999999999", "+-1",
        "١",
    ] {
        assert_eq!(parse_i32(s), s.parse::<i32>().ok(), "input {:?}", s);
    }
}

#[test]
fn parse_usize_like_std() {
    for s in ["0", "17", "+17", "-17", "-0", "", "+", "x", "18446744073709551615", "18446744073709551616"] {
        assert_eq!(parse_usize(s), s.parse::<usize>().ok(), "input {:?}", s);
    }
}

#[test]
fn i32_text_round_trip() {
    for n in [0, 1, -1, 9, 10, -10, 12345, i32::MIN, i32::MAX] {
        assert_eq!(parse_i32(&i32_text(n)), Some(n));
    }
}
