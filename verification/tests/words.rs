use alias_helper::text::{
    chars_of, drop_last_word, is_whitespace, join_words, normalize, skip_spaces_at, skip_word_at,
    substring, word_bounds,
};

#[test]
fn white_space_is_what_the_standard_library_calls_so() {
    let mut code: u32 = 0;
    while code <= 0x10FFFF {
        if let Some(c) = char::from_u32(code) {
            assert_eq!(is_whitespace(c), c.is_whitespace(), "code point {:#x}", code);
        }
        code += 1;
    }
}

#[test]
fn characters_are_counted_not_bytes() {
    assert_eq!(chars_of("a\u{e9}b"), vec!['a', '\u{e9}', 'b']);
    assert_eq!(chars_of(""), Vec::<char>::new());
    assert_eq!(substring("a\u{e9}b c", 1, 3), "\u{e9}b".to_string());
    assert_eq!(substring("abc", 1, 1), "".to_string());
}

#[test]
fn scanning_stops_at_the_first_change() {
    let line = chars_of("  \tgit  branch");
    assert_eq!(skip_spaces_at(&line, 0), 3);
    assert_eq!(skip_spaces_at(&line, 3), 3);
    assert_eq!(skip_word_at(&line, 3), 6);
    assert_eq!(skip_word_at(&line, 6), 6);
    assert_eq!(skip_spaces_at(&line, 6), 8);
    assert_eq!(skip_word_at(&line, 8), 14);
    assert_eq!(skip_spaces_at(&line, 14), 14);
    let blank = chars_of("   ");
    assert_eq!(skip_spaces_at(&blank, 0), 3);
    assert_eq!(skip_word_at(&blank, 0), 0);
}

#[test]
fn words_are_found_where_they_stand() {
    assert_eq!(
        word_bounds(&chars_of("  git   branch -M ")),
        vec![(2, 5), (8, 14), (15, 17)]
    );
    assert_eq!(word_bounds(&chars_of("")), Vec::<(usize, usize)>::new());
    assert_eq!(word_bounds(&chars_of(" \n\t ")), Vec::<(usize, usize)>::new());
    assert_eq!(word_bounds(&chars_of("x")), vec![(0, 1)]);
    assert_eq!(
        word_bounds(&chars_of("a\u{2003}b\u{a0}c")),
        vec![(0, 1), (2, 3), (4, 5)]
    );
}

#[test]
fn leading_words_are_joined_with_single_blanks() {
    let text = "  git   branch\t-M  name ";
    let bounds = word_bounds(&chars_of(text));
    assert_eq!(join_words(text, &bounds, 0), "".to_string());
    assert_eq!(join_words(text, &bounds, 1), "git".to_string());
    assert_eq!(join_words(text, &bounds, 2), "git branch".to_string());
    assert_eq!(join_words(text, &bounds, 4), "git branch -M name".to_string());
}

#[test]
fn normalizing_leaves_single_blanks() {
    assert_eq!(normalize("  git   branch\t-M "), "git branch -M".to_string());
    assert_eq!(normalize("git"), "git".to_string());
    assert_eq!(normalize(""), "".to_string());
    assert_eq!(normalize("  \t "), "".to_string());
}

#[test]
fn dropping_the_last_word_shortens_to_nothing() {
    assert_eq!(drop_last_word("git branch  -M"), "git branch".to_string());
    assert_eq!(drop_last_word("git   branch"), "git".to_string());
    assert_eq!(drop_last_word("git"), "".to_string());
    assert_eq!(drop_last_word("   "), "".to_string());
    assert_eq!(drop_last_word(""), "".to_string());
}
