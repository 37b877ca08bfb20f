use e9571_str_lib::counting::count_exact;
use e9571_str_lib::matching::count_from_left;
use e9571_str_lib::str_count;

#[test]
fn counts_without_regard_to_case() {
    assert_eq!(str_count("abcABC", "abc"), 2);
    assert_eq!(str_count("abcABC", "ABC"), 2);
    assert_eq!(str_count("Hello hello HELLO", "hElLo"), 3);
}

#[test]
fn occurrences_do_not_overlap() {
    assert_eq!(str_count("aaaa", "aa"), 2);
    assert_eq!(str_count("aaa", "aa"), 1);
    assert_eq!(str_count("ababab", "aba"), 1);
    assert_eq!(str_count("abababa", "aba"), 2);
}

#[test]
fn no_occurrence() {
    assert_eq!(str_count("abc", "d"), 0);
    assert_eq!(str_count("abc", "abcd"), 0);
    assert_eq!(str_count("", "a"), 0);
    assert_eq!(str_count("ab", "ba"), 0);
}

#[test]
fn the_whole_haystack_is_one_occurrence() {
    assert_eq!(str_count("Needle", "nEEDLE"), 1);
}

#[test]
fn the_empty_needle_occurs_once_more_than_there_are_characters() {
    assert_eq!(str_count("abc", ""), 4);
    assert_eq!(str_count("", ""), 1);
    assert_eq!(str_count("éé", ""), 3);
    assert_eq!(count_exact("日本語", ""), 4);
}

#[test]
fn letters_beyond_ascii_are_lowered_too() {
    assert_eq!(str_count("ÄäÄ", "ä"), 3);
    assert_eq!(str_count("ÉCOLE école", "École"), 2);
}

#[test]
fn agrees_with_the_standard_matcher() {
    let hays = ["", "a", "aaaaa", "abcabcabc", "xAbXaBx", "ééé", "a,b,,c", "mississippi"];
    let pins = ["", "a", "aa", "abc", "AB", "é", ",", "ss", "issi"];
    for hay in hays {
        for pin in pins {
            let expected = hay.to_lowercase().matches(&pin.to_lowercase()).count() as i32;
            assert_eq!(str_count(hay, pin), expected, "{:?} {:?}", hay, pin);
            let exact = hay.matches(pin).count() as i32;
            assert_eq!(count_exact(hay, pin), exact, "{:?} {:?}", hay, pin);
        }
    }
}

#[test]
fn exact_count_tells_cases_apart() {
    assert_eq!(count_exact("abcABC", "abc"), 1);
    assert_eq!(count_exact("abcABC", "ABC"), 1);
    assert_eq!(count_exact("abcABC", "aBc"), 0);
    assert_eq!(count_exact("aXbXc", "X"), 2);
}

#[test]
fn needles_that_repeat_themselves() {
    assert_eq!(count_exact("aabaabaabaab", "aabaab"), 2);
    assert_eq!(count_exact("aabaabaab", "aabaab"), 1);
    assert_eq!(count_exact("abababab", "abab"), 2);
    assert_eq!(count_exact("aaaaaaa", "aaa"), 2);
    assert_eq!(count_exact("abcabcabd", "abcabd"), 1);
    assert_eq!(count_exact("aaab", "aab"), 1);
    assert_eq!(count_exact("abacabab", "abab"), 1);
}

#[test]
fn one_pass_count_on_characters() {
    let hay: Vec<char> = "xyxyxyx".chars().collect();
    let pin: Vec<char> = "xyx".chars().collect();
    assert_eq!(count_from_left(&hay, &pin), 2);
    assert_eq!(count_from_left(&Vec::new(), &pin), 0);
    assert_eq!(count_from_left(&pin, &hay), 0);
    assert_eq!(count_from_left(&hay, &hay), 1);
    assert_eq!(count_from_left(&hay, &vec!['x']), 4);
}

#[test]
fn one_pass_count_agrees_with_the_standard_matcher_on_all_short_texts() {
    let letters = ['a', 'b'];
    let mut texts: Vec<String> = vec![String::new()];
    let mut start = 0;
    for _ in 0..9 {
        let end = texts.len();
        for i in start..end {
            for c in letters {
                let mut longer = texts[i].clone();
                longer.push(c);
                texts.push(longer);
            }
        }
        start = end;
    }
    for hay in &texts {
        for pin in texts.iter().filter(|t| !t.is_empty() && t.len() <= 4) {
            let expected = hay.matches(pin.as_str()).count();
            let hay_chars: Vec<char> = hay.chars().collect();
            let pin_chars: Vec<char> = pin.chars().collect();
            assert_eq!(count_from_left(&hay_chars, &pin_chars), expected, "{:?} {:?}", hay, pin);
        }
    }
}
