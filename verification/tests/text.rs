use learning::text::{
    i32_to_decimal, is_white_space, normalize_reply, parse_usize, split_whitespace,
    trim_str, trimmed_lines, word_wrap, word_wrap_preserving_lines,
};

#[test]
fn white_space_is_unicode_white_space() {
    for c in ['\t', '\n', '\u{b}', '\u{c}', '\r', ' ', '\u{85}', '\u{a0}', '\u{1680}', '\u{2000}', '\u{200a}', '\u{2028}', '\u{2029}', '\u{202f}', '\u{205f}', '\u{3000}'] {
        assert!(is_white_space(c), "{:?}", c);
        assert!(c.is_whitespace());
    }
    for c in ['a', '-', '\u{200b}', '\u{feff}', '0', '\u{1f600}'] {
        assert!(!is_white_space(c), "{:?}", c);
        assert!(!c.is_whitespace());
    }
}

#[test]
fn trimming_matches_str_trim() {
    for s in ["", "   ", "  a b  ", "\u{3000}x\u{a0}", "x", "\n\tline\r\n"] {
        assert_eq!(trim_str(s), s.trim());
    }
}

#[test]
fn words_split_as_split_whitespace_does() {
    for s in ["", "  ", "one", " one  two\tthree\n", "a\u{3000}b", "ünï cödé"] {
        let expected: Vec<String> = s.split_whitespace().map(|w| w.to_string()).collect();
        assert_eq!(split_whitespace(s), expected);
    }
}

#[test]
fn wrapping_fills_lines_greedily() {
    assert_eq!(
        word_wrap("the quick brown fox jumps over the lazy dog", 10),
        vec!["the quick", "brown fox", "jumps over", "the lazy", "dog"]
    );
    assert_eq!(word_wrap("", 10), Vec::<String>::new());
    assert_eq!(word_wrap("   ", 10), Vec::<String>::new());
    assert_eq!(word_wrap("a b", 3), vec!["a b"]);
    assert_eq!(word_wrap("a b", 2), vec!["a", "b"]);
}

#[test]
fn overlong_words_stand_alone() {
    assert_eq!(
        word_wrap("tiny extraordinarily long", 5),
        vec!["tiny", "extraordinarily", "long"]
    );
    assert_eq!(word_wrap("word", 0), vec!["word"]);
}

#[test]
fn wrapping_counts_characters() {
    assert_eq!(word_wrap("é é", 3), vec!["é é"]);
    assert_eq!(word_wrap("é é", 2), vec!["é", "é"]);
    assert_eq!(word_wrap("日本 語", 4), vec!["日本 語"]);
}

#[test]
fn wrapped_text_keeps_breaks_blank_lines_and_bullets() {
    let text = "  Intro line here\n\n- first item that wraps\n- short\nplain   words  \n";
    assert_eq!(
        word_wrap_preserving_lines(text, 12),
        vec![
            "Intro line",
            "here",
            "",
            "- first item",
            "  that wraps",
            "- short",
            "plain words"
        ]
    );
    assert_eq!(word_wrap_preserving_lines("", 58), Vec::<String>::new());
    assert_eq!(word_wrap_preserving_lines("a\r\nb", 58), vec!["a", "b"]);
}

#[test]
fn bullets_wrap_at_zero_width_when_narrow() {
    assert_eq!(word_wrap_preserving_lines("- ab cd", 1), vec!["- ab", "  cd"]);
}

#[test]
fn hint_lines_are_the_lines_of_the_trimmed_hint() {
    for h in ["", "  one\n  two  \n\nthree\r\nfour  ", "x\r\ny", "\n\nlast\n"] {
        let expected: Vec<String> = h.trim().lines().map(|l| l.to_string()).collect();
        assert_eq!(trimmed_lines(h), expected);
    }
}

#[test]
fn decimals_match_display() {
    for n in [0, 7, 10, 99, 100, -1, -10, 123456, i32::MIN, i32::MAX] {
        assert_eq!(i32_to_decimal(n), n.to_string());
    }
}

#[test]
fn unsigned_numbers_parse_as_std_does() {
    for s in ["0", "1", "007", "+5", "18446744073709551615", "18446744073709551616", "", "+", "-1", "-0", " 1", "1 ", "1a", "٣", "99999999999999999999999"] {
        assert_eq!(parse_usize(s), s.parse::<usize>().ok(), "{:?}", s);
    }
}

#[test]
fn replies_are_trimmed_and_lowercased() {
    assert_eq!(normalize_reply("  YES \n"), "yes");
    assert_eq!(normalize_reply("Q"), "q");
    assert_eq!(normalize_reply(""), "");
    assert_eq!(normalize_reply("ÀÉ"), "àé");
}

#[test]
fn wrapped_text_lines_fit_or_hold_one_word() {
    let text = "- a bulleted item with several words\nplain text with an extraordinarilylongword inside\n\n- x";
    for width in [0usize, 1, 2, 5, 10, 20] {
        for line in word_wrap_preserving_lines(text, width) {
            let n = line.chars().count();
            let one_word = !line.contains(char::is_whitespace)
                || ((line.starts_with("- ") || line.starts_with("  "))
                    && !line[2..].contains(char::is_whitespace));
            assert!(n <= width || one_word, "{:?} at {}", line, width);
        }
    }
}

#[test]
fn line_breaks_are_kept_between_wrapped_parts() {
    let a = "first part with words";
    let b = "- second part here";
    for width in [4usize, 10, 58] {
        let mut joined = word_wrap_preserving_lines(a, width);
        joined.extend(word_wrap_preserving_lines(b, width));
        assert_eq!(word_wrap_preserving_lines(&format!("{}\n{}", a, b), width), joined);
        let mut spaced = word_wrap_preserving_lines(a, width);
        spaced.push(String::new());
        spaced.extend(word_wrap_preserving_lines(b, width));
        assert_eq!(word_wrap_preserving_lines(&format!("{}\n\n{}", a, b), width), spaced);
    }
}
