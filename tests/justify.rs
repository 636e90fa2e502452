use justify_string::{finalize_current_line, justify, split_words};

const LOREM_IPSUM: &str = "Lorem ipsum dolor sit amet consectetur adipiscing elit sed do eiusmod tempor incididunt ut labore et dolore magna aliqua";

#[test]
fn simple() {
    let lorem_ipsum = LOREM_IPSUM;
    let test_cases = [
        ("", 5, ""),
        ("test", 4, "test"),
        ("test", 5, "test "),
        ("test", 1, "t\ne\ns\nt"),
        ("  12345 ", 2, "12\n34\n5 "),
        ("  ", 5, ""),
        ("a   a  123", 4, "a  a\n123 "),
        // A no-break space separates words like any other white space.
        ("aaa\u{a0}aaa", 5, "aaa  \naaa  "),
        ("a a a 12345", 8, "a   a  a\n12345   "),
        ("1234567", 3, "123\n456\n7  "),
        ("12 123456789abc 1", 5, "12   \n12345\n6789a\nbc  1"),
        (lorem_ipsum, 12, "Lorem  ipsum\ndolor    sit\namet        \nconsectetur \nadipiscing  \nelit  sed do\neiusmod     \ntempor      \nincididunt  \nut labore et\ndolore magna\naliqua      "),
        (lorem_ipsum, 7, "Lorem  \nipsum  \ndolor  \nsit    \namet   \nconsect\netur   \nadipisc\ning    \nelit   \nsed  do\neiusmod\ntempor \nincidid\nunt  ut\nlabore \net     \ndolore \nmagna  \naliqua "),
        (lorem_ipsum, 35, "Lorem    ipsum   dolor   sit   amet\nconsectetur  adipiscing elit sed do\neiusmod tempor incididunt ut labore\net      dolore     magna     aliqua"),
    ];

    for &(input, line_width, expected) in &test_cases {
        assert_eq!(
            justify(input, line_width), expected,
            "input: \"{}\", width: {}", input, line_width
        );
    }
}

#[test]
fn word_longer_than_line_is_broken() {
    assert_eq!(justify("123 12 123456789abc", 8), "123   12\n12345678\n9abc    ");
}

#[test]
fn exact_fit_is_unchanged() {
    assert_eq!(justify("test", 4), "test");
    assert_eq!(justify("ab cd", 5), "ab cd");
}

#[test]
fn single_word_is_padded_at_end() {
    assert_eq!(justify("test", 5), "test ");
    assert_eq!(justify("1234567", 3), "123\n456\n7  ");
}

#[test]
fn empty_and_blank_input_give_nothing() {
    assert_eq!(justify("", 1), "");
    assert_eq!(justify("  ", 5), "");
    assert_eq!(justify(" \t\n\r ", 3), "");
    assert_eq!(justify("\u{a0}\u{3000}", 7), "");
}

#[test]
fn runs_of_white_space_collapse() {
    assert_eq!(justify("a   a  123", 4), "a  a\n123 ");
    assert_eq!(justify("a\tb\nc", 5), "a b c");
    assert_eq!(justify("x\r\n\ty", 4), "x  y");
}

#[test]
fn characters_are_counted_not_bytes() {
    assert_eq!(justify("äö ü", 5), "äö  ü");
    assert_eq!(justify("日本語", 2), "日本\n語 ");
}

#[test]
fn spare_spaces_go_to_leftmost_gaps() {
    let mut out = String::from("123");
    finalize_current_line(&mut out, &vec!["12", "1234"], 3);
    assert_eq!(out, "123   12  1234");

    let mut out = String::from("a");
    finalize_current_line(&mut out, &vec!["b", "c", "d"], 5);
    assert_eq!(out, "a   b   c  d");

    let mut out = String::from("a");
    finalize_current_line(&mut out, &vec!["b", "c"], 0);
    assert_eq!(out, "a b c");
}

#[test]
fn finalize_without_further_words_pads_the_end() {
    let mut out = String::from("123");
    finalize_current_line(&mut out, &vec![], 2);
    assert_eq!(out, "123  ");

    let mut out = String::from("x\n123");
    finalize_current_line(&mut out, &vec![], 0);
    assert_eq!(out, "x\n123");
}

#[test]
fn split_words_uses_unicode_white_space() {
    assert_eq!(split_words("  ab\u{2003}c\u{a0}d\te "), vec!["ab", "c", "d", "e"]);
    assert_eq!(split_words(""), Vec::<String>::new());
    assert_eq!(split_words("a\u{200b}b"), vec!["a\u{200b}b"]);
}

#[test]
fn every_line_has_the_requested_width() {
    for width in 1..40u32 {
        let out = justify(LOREM_IPSUM, width);
        for line in out.split('\n') {
            assert_eq!(line.chars().count(), width as usize, "width {}", width);
        }
    }
}

#[test]
fn non_space_characters_are_kept_in_order() {
    let input = "  the quick\tbrown  fox jumps over\nthe lazy dog ";
    let expected: String = input.chars().filter(|c| !c.is_whitespace()).collect();
    for width in 1..20u32 {
        let out = justify(input, width);
        let kept: String = out.chars().filter(|c| !c.is_whitespace()).collect();
        assert_eq!(kept, expected, "width {}", width);
    }
}

#[test]
fn gaps_differ_by_at_most_one_and_shrink_rightwards() {
    let out = justify(LOREM_IPSUM, 35);
    assert_eq!(out.split('\n').next(), Some("Lorem    ipsum   dolor   sit   amet"));
    let mut out = String::from("w");
    finalize_current_line(&mut out, &vec!["x", "y", "z", "v"], 6);
    assert_eq!(out, "w   x   y  z  v");
}

#[test]
fn justifying_a_full_line_again_changes_nothing() {
    let once = justify("a b   c", 9);
    assert_eq!(once, "a   b   c");
    assert_eq!(justify(&once, 9), once);
    let once = justify("lorem ipsum", 11);
    assert_eq!(justify(&once, 11), once);
}
