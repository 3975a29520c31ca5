use worklog::notes::{apply_md, byte_of, numbered_prefix, Md};

#[test]
fn wrap_adds_and_toggles() {
    let mut t = String::from("hello world");
    assert_eq!(apply_md(&mut t, (6, 11), &Md::Wrap("**")), (8, 13));
    assert_eq!(t, "hello **world**");
    // same selection (the inner word) toggles it back off
    assert_eq!(apply_md(&mut t, (8, 13), &Md::Wrap("**")), (6, 11));
    assert_eq!(t, "hello world");
    // selecting the markers too also toggles off
    apply_md(&mut t, (6, 11), &Md::Wrap("~~"));
    assert_eq!(apply_md(&mut t, (6, 15), &Md::Wrap("~~")), (6, 11));
    assert_eq!(t, "hello world");
}

#[test]
fn empty_selection_wrap_places_cursor_between_markers() {
    let mut t = String::from("ab");
    assert_eq!(apply_md(&mut t, (2, 2), &Md::Wrap("**")), (4, 4));
    assert_eq!(t, "ab****");
}

#[test]
fn heading_swaps_level_and_toggles() {
    let mut t = String::from("title");
    apply_md(&mut t, (0, 0), &Md::LinePrefix("# "));
    assert_eq!(t, "# title");
    apply_md(&mut t, (3, 3), &Md::LinePrefix("## "));
    assert_eq!(t, "## title");
    apply_md(&mut t, (0, 0), &Md::LinePrefix("## "));
    assert_eq!(t, "title");
}

#[test]
fn lists_cover_every_selected_line() {
    let mut t = String::from("a\nb\nc");
    apply_md(&mut t, (0, 5), &Md::LinePrefix("- "));
    assert_eq!(t, "- a\n- b\n- c");
    let mut t = String::from("a\nb");
    apply_md(&mut t, (0, 3), &Md::Numbered);
    assert_eq!(t, "1. a\n2. b");
    let len = t.chars().count();
    apply_md(&mut t, (0, len), &Md::Numbered);
    assert_eq!(t, "a\nb");
}

#[test]
fn code_block_wraps_selected_lines() {
    let mut t = String::from("let x = 1;");
    apply_md(&mut t, (2, 5), &Md::CodeBlock);
    assert_eq!(t, "```\nlet x = 1;\n```");
}

#[test]
fn wrap_survives_multibyte_text() {
    let mut t = String::from("café été");
    assert_eq!(apply_md(&mut t, (5, 8), &Md::Wrap("**")), (7, 10));
    assert_eq!(t, "café **été**");
}

#[test]
fn wrap_around_markers_outside_selection_comes_off() {
    let mut t = String::from("a *b* c");
    assert_eq!(apply_md(&mut t, (3, 4), &Md::Wrap("*")), (2, 3));
    assert_eq!(t, "a b c");
}

#[test]
fn wrap_past_the_end_counts_as_the_end() {
    let mut t = String::from("ab");
    assert_eq!(apply_md(&mut t, (1, 9), &Md::Wrap("`")), (2, 10));
    assert_eq!(t, "a`b`");
}

#[test]
fn prefix_only_touches_selected_lines() {
    let mut t = String::from("one\ntwo\nthree");
    assert_eq!(apply_md(&mut t, (5, 6), &Md::LinePrefix("> ")), (4, 9));
    assert_eq!(t, "one\n> two\nthree");
    assert_eq!(apply_md(&mut t, (4, 9), &Md::LinePrefix("> ")), (4, 7));
    assert_eq!(t, "one\ntwo\nthree");
}

#[test]
fn mixed_prefixes_add_to_every_line() {
    let mut t = String::from("- a\nb");
    apply_md(&mut t, (0, 5), &Md::LinePrefix("- "));
    assert_eq!(t, "- - a\n- b");
}

#[test]
fn heading_strips_one_space_after_hashes() {
    let mut t = String::from("###  deep");
    apply_md(&mut t, (0, 0), &Md::LinePrefix("# "));
    assert_eq!(t, "#  deep");
}

#[test]
fn numbering_counts_past_nine() {
    let mut t = String::from("a\nb\nc\nd\ne\nf\ng\nh\ni\nj");
    let len = t.chars().count();
    assert_eq!(apply_md(&mut t, (0, len), &Md::Numbered), (0, 50));
    assert!(t.ends_with("9. i\n10. j"));
    apply_md(&mut t, (0, 0), &Md::Numbered);
    assert!(t.starts_with("a\n2. b"));
}

#[test]
fn rule_goes_after_the_line() {
    let mut t = String::from("ab\ncd");
    assert_eq!(apply_md(&mut t, (1, 1), &Md::Rule), (8, 8));
    assert_eq!(t, "ab\n\n---\n\ncd");
}

#[test]
fn table_goes_after_the_line() {
    let mut t = String::from("x");
    let t_len = "\n\n| Col 1 | Col 2 |\n| --- | --- |\n|  |  |\n".chars().count();
    assert_eq!(apply_md(&mut t, (0, 1), &Md::Table), (1 + t_len, 1 + t_len));
    assert_eq!(t, "x\n\n| Col 1 | Col 2 |\n| --- | --- |\n|  |  |\n");
}

#[test]
fn code_block_on_empty_text() {
    let mut t = String::new();
    assert_eq!(apply_md(&mut t, (0, 0), &Md::CodeBlock), (0, 8));
    assert_eq!(t, "```\n\n```");
}

#[test]
fn byte_offsets_count_utf8_bytes() {
    assert_eq!(byte_of("café été", 0), 0);
    assert_eq!(byte_of("café été", 4), 5);
    assert_eq!(byte_of("café été", 5), 6);
    assert_eq!(byte_of("café été", 50), 11);
    assert_eq!(byte_of("a😀b", 2), 5);
}

#[test]
fn numbered_prefix_needs_digits_dot_and_space() {
    assert_eq!(numbered_prefix("12. x"), Some(4));
    assert_eq!(numbered_prefix("1."), None);
    assert_eq!(numbered_prefix(". x"), None);
    assert_eq!(numbered_prefix("3) x"), None);
    assert_eq!(numbered_prefix("7. "), Some(3));
}

#[test]
fn wrap_button_pressed_twice_gives_the_text_back() {
    for (text, sel, m) in [("plan the week", (5, 8), "*"), ("café été", (0, 4), "~~"), ("", (0, 0), "`")] {
        let mut t = String::from(text);
        let s1 = apply_md(&mut t, sel, &Md::Wrap(m));
        assert_eq!(apply_md(&mut t, s1, &Md::Wrap(m)), sel);
        assert_eq!(t, text);
    }
}
