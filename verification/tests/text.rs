use bench_plot::text::{chars_of, contains_str, split_lines, string_of};

fn std_lines(text: &str) -> Vec<String> {
    text.lines().map(String::from).collect()
}

#[test]
fn lines_end_at_line_feeds() {
    assert_eq!(split_lines("a\nb"), vec!["a", "b"]);
    assert_eq!(split_lines("a\nb\n"), vec!["a", "b"]);
    assert_eq!(split_lines("a\n\nb"), vec!["a", "", "b"]);
}

#[test]
fn empty_text_has_no_line() {
    assert_eq!(split_lines(""), Vec::<String>::new());
}

#[test]
fn lone_line_feed_is_one_empty_line() {
    assert_eq!(split_lines("\n"), vec![""]);
    assert_eq!(split_lines("\n\n"), vec!["", ""]);
}

#[test]
fn carriage_return_before_line_feed_is_dropped() {
    assert_eq!(split_lines("a\r\nb\r\n"), vec!["a", "b"]);
    assert_eq!(split_lines("\r\n"), vec![""]);
    assert_eq!(split_lines("a\r\r\n"), vec!["a\r"]);
}

#[test]
fn lone_carriage_return_stays() {
    assert_eq!(split_lines("a\rb"), vec!["a\rb"]);
    assert_eq!(split_lines("a\r"), vec!["a\r"]);
    assert_eq!(split_lines("a\r\nb\r"), vec!["a", "b\r"]);
}

#[test]
fn lines_agree_with_the_standard_library() {
    let samples = [
        "",
        "\n",
        "\r",
        "\r\n",
        "x",
        "x\n",
        "x\r\n",
        "x\ry\n",
        "one\ntwo\r\nthree",
        "\n\nlast",
        "tab\there\n caf\u{e9} \u{1f980}\r\n",
        "running 2 tests\ntest a ... bench: 1 ns/iter (+/- 0)\n\ntest result: ok.\n",
    ];
    for sample in samples {
        assert_eq!(split_lines(sample), std_lines(sample), "{:?}", sample);
    }
}

#[test]
fn characters_round_trip() {
    let text = "caf\u{e9} \u{1f980} ... bench:";
    let chars = chars_of(text);
    assert_eq!(chars.len(), 17);
    assert_eq!(chars[3], '\u{e9}');
    assert_eq!(chars[5], '\u{1f980}');
    assert_eq!(string_of(&chars), text);
    assert_eq!(string_of(&Vec::new()), "");
}

#[test]
fn marker_is_found_anywhere() {
    assert!(contains_str("test a ... bench: 1 ns/iter (+/- 0)", "... bench:"));
    assert!(contains_str("... bench:", "... bench:"));
    assert!(contains_str("x... bench:", "... bench:"));
    assert!(contains_str("... bench:x", "... bench:"));
    assert!(contains_str("..... bench:", "... bench:"));
}

#[test]
fn marker_is_not_found_where_it_is_not() {
    assert!(!contains_str("", "... bench:"));
    assert!(!contains_str("... bench", "... bench:"));
    assert!(!contains_str(".. bench:", "... bench:"));
    assert!(!contains_str("test result: ok. 0 passed", "... bench:"));
    assert!(!contains_str("... Bench:", "... bench:"));
}

#[test]
fn empty_needle_is_in_every_text() {
    assert!(contains_str("", ""));
    assert!(contains_str("abc", ""));
}

#[test]
fn search_agrees_with_the_standard_library() {
    let texts = ["", "a", "ab", "aab", "abab", "aaa", "ba", "\u{e9}a\u{e9}b"];
    let needles = ["", "a", "b", "ab", "aa", "ba", "abc", "\u{e9}b"];
    for text in texts {
        for needle in needles {
            assert_eq!(contains_str(text, needle), text.contains(needle), "{:?} {:?}", text, needle);
        }
    }
}

#[test]
fn no_line_holds_a_line_feed() {
    let samples = ["", "\n", "a\nb\r\nc", "\n\n\n", "no end", "one\n two \n\tthree\n"];
    for sample in samples {
        for line in split_lines(sample) {
            assert!(!line.contains('\n'), "{:?}", sample);
        }
    }
}
