use e9571_str_lib::order::{may_precede, text_no_later};

#[test]
fn a_text_is_no_later_than_itself() {
    assert!(text_no_later("", ""));
    assert!(text_no_later("abc", "abc"));
    assert!(text_no_later("é", "é"));
}

#[test]
fn the_first_differing_byte_decides() {
    assert!(text_no_later("abc", "abd"));
    assert!(!text_no_later("abd", "abc"));
    assert!(text_no_later("B", "a"));
    assert!(!text_no_later("a", "B"));
    assert!(text_no_later("az", "b"));
}

#[test]
fn a_prefix_comes_first() {
    assert!(text_no_later("", "a"));
    assert!(!text_no_later("a", ""));
    assert!(text_no_later("ab", "abc"));
    assert!(!text_no_later("abc", "ab"));
}

#[test]
fn multi_byte_characters_come_behind_ascii() {
    assert!(text_no_later("z", "é"));
    assert!(!text_no_later("é", "z"));
    assert!(text_no_later("é", "日"));
    assert!(text_no_later("日", "😀"));
}

#[test]
fn no_later_agrees_with_the_standard_order() {
    let samples = ["", "a", "A", "ab", "b", "é", "e", "zz", "日本", "😀", "@", "a@"];
    for a in samples {
        for b in samples {
            assert_eq!(text_no_later(a, b), a <= b, "{:?} {:?}", a, b);
        }
    }
}

#[test]
fn may_precede_follows_the_direction() {
    assert!(may_precede("a", "b", false));
    assert!(!may_precede("b", "a", false));
    assert!(may_precede("b", "a", true));
    assert!(!may_precede("a", "b", true));
    assert!(may_precede("a", "a", false));
    assert!(may_precede("a", "a", true));
}
