use e9571_str_lib::fingerprint::{digest_text, join_texts};
use e9571_str_lib::text::{lower_ascii, lower_char};
use e9571_str_lib::sort_package_str;

fn owned(items: &[&str]) -> Vec<String> {
    items.iter().map(|s| s.to_string()).collect()
}

#[test]
fn fingerprint_of_three_texts_ascending() {
    let (text, digest) = sort_package_str(&owned(&["b", "c", "a"]), 0);
    assert_eq!(text, "a@b@c");
    assert_eq!(digest, "b8d210701bb90650b5582aad7b599996");
}

#[test]
fn fingerprint_of_three_texts_descending() {
    let (text, digest) = sort_package_str(&owned(&["b", "c", "a"]), 1);
    assert_eq!(text, "c@b@a");
    assert_eq!(digest, "25e61341261cb10a3cb076fc646fc21d");
}

#[test]
fn fingerprint_of_words() {
    let data = owned(&["cherry", "apple", "banana"]);
    assert_eq!(
        sort_package_str(&data, 0),
        (
            "apple@banana@cherry".to_string(),
            "8289d173f6702fc10d733293a3bbc19d".to_string()
        )
    );
    assert_eq!(
        sort_package_str(&data, 9),
        (
            "cherry@banana@apple".to_string(),
            "ae854110093649608ef71f723a3ee724".to_string()
        )
    );
}

#[test]
fn fingerprint_of_nothing() {
    let (text, digest) = sort_package_str(&[], 0);
    assert_eq!(text, "");
    assert_eq!(digest, "d41d8cd98f00b204e9800998ecf8427e");
}

#[test]
fn fingerprint_of_one_text_has_no_separator() {
    let (text, digest) = sort_package_str(&owned(&["a"]), 0);
    assert_eq!(text, "a");
    assert_eq!(digest, "0cc175b9c0f1b6a831c399e269772661");
}

#[test]
fn fingerprint_keeps_duplicates_and_empty_texts() {
    let (text, digest) = sort_package_str(&owned(&["a", "b", "a"]), 0);
    assert_eq!(text, "a@a@b");
    assert_eq!(digest, "cc222680a0ba8006e8c735e0eb11d4f5");
    let (text, _) = sort_package_str(&owned(&["", "x", ""]), 0);
    assert_eq!(text, "@@x");
}

#[test]
fn fingerprint_of_multi_byte_texts() {
    let (text, digest) = sort_package_str(&owned(&["zoé", "émile"]), 1);
    assert_eq!(text, "émile@zoé");
    assert_eq!(digest, "b0c6018eb5e358adc0447517de419f23");
}

#[test]
fn digest_is_in_lower_case_hexadecimal() {
    let (_, digest) = sort_package_str(&owned(&["B", "a"]), 0);
    assert_eq!(digest, "ea6d52aee50c85aa4216d083d53cbf99");
    assert_eq!(digest.len(), 32);
    assert!(digest
        .chars()
        .all(|c| c.is_ascii_digit() || ('a'..='f').contains(&c)));
}

#[test]
fn fingerprint_ignores_input_order() {
    let first = sort_package_str(&owned(&["x", "y", "z", "x"]), 0);
    assert_eq!(sort_package_str(&owned(&["z", "x", "x", "y"]), 0), first);
    assert_eq!(sort_package_str(&owned(&["y", "x", "z", "x"]), 0), first);
    let down = sort_package_str(&owned(&["x", "y", "z", "x"]), 1);
    assert_eq!(sort_package_str(&owned(&["z", "x", "x", "y"]), 1), down);
    assert_ne!(first, down);
}

#[test]
fn separator_inside_a_text_can_collide() {
    let one = sort_package_str(&owned(&["a@b"]), 0);
    let two = sort_package_str(&owned(&["a", "b"]), 0);
    assert_eq!(one, two);
    assert_eq!(one.0, "a@b");
    assert_eq!(one.1, "a1ca0ed6e42a23f4758e8a3f6b54de58");
}

#[test]
fn join_puts_the_separator_between_neighbours() {
    assert_eq!(join_texts(&[]), "");
    assert_eq!(join_texts(&owned(&["a"])), "a");
    assert_eq!(join_texts(&owned(&["b", "a"])), "b@a");
    assert_eq!(join_texts(&owned(&["", ""])), "@");
    assert_eq!(join_texts(&owned(&["x", "", "y"])), "x@@y");
}

#[test]
fn lowering_touches_ascii_capitals_only() {
    assert_eq!(lower_ascii("0123456789ABCDEF"), "0123456789abcdef");
    assert_eq!(lower_ascii("AZ az @[`{ É"), "az az @[`{ É");
    assert_eq!(lower_ascii(""), "");
    assert_eq!(lower_char('A'), 'a');
    assert_eq!(lower_char('Z'), 'z');
    assert_eq!(lower_char('@'), '@');
    assert_eq!(lower_char('['), '[');
    assert_eq!(lower_char('q'), 'q');
}

#[test]
fn digest_of_a_text() {
    assert_eq!(digest_text(""), "d41d8cd98f00b204e9800998ecf8427e");
    assert_eq!(digest_text("a@b@c"), "b8d210701bb90650b5582aad7b599996");
}
