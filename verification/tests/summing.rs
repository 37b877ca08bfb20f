use e9571_str_lib::str_ascii;
use e9571_str_lib::text::chars_of;

#[test]
fn sum_of_one_letter() {
    assert_eq!(str_ascii("A"), 65);
}

#[test]
fn sum_of_two_letters() {
    assert_eq!(str_ascii("AB"), 131);
}

#[test]
fn sum_of_nothing_is_zero() {
    assert_eq!(str_ascii(""), 0);
}

#[test]
fn sum_of_a_word() {
    assert_eq!(str_ascii("hello"), 104 + 101 + 108 + 108 + 111);
    assert_eq!(str_ascii("0xabc"), 48 + 120 + 97 + 98 + 99);
}

#[test]
fn sum_is_not_restricted_to_ascii() {
    assert_eq!(str_ascii("é"), 233);
    assert_eq!(str_ascii("😀"), 0x1f600);
    assert_eq!(str_ascii("aé😀"), 97 + 233 + 0x1f600);
    assert_eq!(str_ascii("\u{10ffff}\u{10ffff}"), 2 * 0x10ffff);
}

#[test]
fn sum_does_not_depend_on_the_order() {
    assert_eq!(str_ascii("abc"), str_ascii("cba"));
}

#[test]
fn sum_agrees_with_adding_the_scalar_values() {
    let text = "The quick brown fox — jumps over 13 lazy dogs; 日本語! 😀";
    let expected: u64 = text.chars().map(|c| c as u64).sum();
    assert_eq!(str_ascii(text), expected);
}

#[test]
fn chars_of_lists_the_characters() {
    assert_eq!(chars_of("aé😀"), vec!['a', 'é', '😀']);
    assert!(chars_of("").is_empty());
}
