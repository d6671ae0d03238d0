use window_decorations::title::{truncate_title, truncate_to_columns};

#[test]
fn unicode_title_is_truncated_to_display_width() {
    assert_eq!(truncate_title("Alacritty 终端", 11), "Alacritty …");
    assert_eq!(truncate_title("abc", 3), "abc");
    assert_eq!(truncate_title("abc", 0), "");
}

#[test]
fn wide_characters_take_two_columns() {
    assert_eq!(truncate_title("终端", 4), "终端");
    assert_eq!(truncate_title("终端", 3), "终…");
    assert_eq!(truncate_title("终端", 2), "…");
    assert_eq!(truncate_title("终端", 1), "…");
    assert_eq!(truncate_title("Alacritty 终端", 14), "Alacritty 终端");
    assert_eq!(truncate_title("Alacritty 终端", 13), "Alacritty 终…");
    assert_eq!(truncate_title("Alacritty 终端", 12), "Alacritty …");
}

#[test]
fn control_characters_take_no_column() {
    assert_eq!(truncate_title("a\u{7}b", 2), "a\u{7}b");
    assert_eq!(truncate_title("", 0), "");
}

#[test]
fn marks_stay_with_their_letter() {
    assert_eq!(truncate_title("e\u{301}fg", 2), "e\u{301}…");
}

#[test]
fn truncated_titles_fit() {
    for max_columns in 0..20 {
        let result = truncate_title("Alacritty 终端 — ~/src", max_columns);
        let columns: usize = result
            .chars()
            .map(|c| unicode_width::UnicodeWidthChar::width(c).unwrap_or(0))
            .sum();
        assert!(columns <= max_columns);
    }
}

#[test]
fn columns_decide_where_a_title_is_cut() {
    assert_eq!(truncate_to_columns("abcd", &vec![1, 1, 1, 1], 4), "abcd");
    assert_eq!(truncate_to_columns("abcd", &vec![1, 1, 1, 1], 3), "ab…");
    assert_eq!(truncate_to_columns("abcd", &vec![1, 0, 2, 1], 3), "ab…");
    assert_eq!(truncate_to_columns("abcd", &vec![5, 1, 1, 1], 3), "…");
    assert_eq!(truncate_to_columns("abcd", &vec![1, 1, 1, 1], 0), "");
    assert_eq!(truncate_to_columns("ab", &vec![usize::MAX, usize::MAX], usize::MAX), "…");
}

#[test]
fn truncating_again_changes_nothing() {
    for max_columns in 0..20 {
        let once = truncate_title("Alacritty 终端 — ~/src", max_columns);
        assert_eq!(truncate_title(&once, max_columns), once);
    }
}

#[test]
fn truncating_to_less_is_truncating_once() {
    let title = "Alacritty 终端 — ~/src e\u{301}…";
    for first in 0..30 {
        for second in 0..=first {
            let once = truncate_title(title, first);
            assert_eq!(truncate_title(&once, second), truncate_title(title, second));
        }
    }
}
