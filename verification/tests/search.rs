//! What a search hits, and what of a text is marked.

use svn_manager::search::{highlight, highlight_each, highlight_with, is_word_char, mark_colors, slice_eq, Piece, Search};

/// What is not marked of the pieces, and the marked ones.
fn split(pieces: Vec<Piece>) -> (String, Vec<String>) {
    let mut plain = String::new();
    let mut marks = Vec::new();
    for piece in pieces {
        if piece.text.is_empty() {
            continue;
        }
        if piece.marked {
            marks.push(piece.text);
        } else {
            plain.push_str(&piece.text);
        }
    }
    (plain, marks)
}

fn build(needle: &str, case: bool, regex: bool, word: bool) -> Search {
    let search = Search::build(needle, case, regex, word);
    assert!(search.error.is_empty(), "不该报错：{}", search.error);
    search
}

#[test]
fn empty_needle_keeps_text_untouched() {
    let (plain, marks) = split(highlight("svn log -r HEAD:1", "   "));
    assert_eq!(plain, "svn log -r HEAD:1");
    assert!(marks.is_empty(), "{marks:?}");
}

#[test]
fn marks_every_match_case_insensitively() {
    let (plain, marks) = split(highlight("SVN svn svn/HRP.Hr", "svn"));
    assert_eq!(marks, vec!["SVN", "svn", "svn"]);
    assert_eq!(plain, "  /HRP.Hr");
}

#[test]
fn multibyte_needle_splits_on_char_boundaries() {
    let (plain, marks) = split(highlight("修复 药品明细 保存 药品", "药品"));
    assert_eq!(marks, vec!["药品", "药品"]);
    assert_eq!(plain, "修复 明细 保存 ");
}

#[test]
fn plain_text_search_ignores_case_until_switched_on() {
    assert!(build("fix", false, false, false).hits("Fixed 药品"));
    assert!(
        !build("fix", true, false, false).hits("Fixed 药品"),
        "开了大小写敏感就不该认 fix"
    );
    assert!(build("FIX", true, false, false).hits("FIX 掉了"), "同写法大小写敏感照样命中");
    assert!(!build("FIX", true, false, false).hits("Fixed 药品"), "大小写敏感时 FIX 不认 Fixed");
    assert!(build("Fix", true, false, false).hits("Fixed 药品"));
    assert!(build("药品", true, false, false).hits("修复 药品 明细"));
}

#[test]
fn whole_word_skips_partial_matches() {
    assert!(build("add", false, false, true).hits("please add it"));
    assert!(
        !build("add", false, false, true).hits("address book"),
        "address 里的 add 不算整词"
    );
    assert!(build("add", false, false, true).hits("add-on"), "连字符算词边界");
    assert!(!build("药品", false, false, true).hits("修复药品明细"));
    assert!(build("药品", false, false, true).hits("修复「药品」明细"));
}

#[test]
fn regex_mode_follows_the_same_two_switches() {
    assert!(build(r"r\d+", false, true, false).hits("本次 r1208 提交"));
    assert!(!build(r"r\d+", true, true, false).hits("本次 R1208 提交"));
    assert!(build(r"R\d+", true, true, false).hits("本次 R1208 提交"));
    assert!(build("药品|明细", false, true, false).hits("保存明细"));
    assert!(build("药品|明细", false, true, true).hits("保存「明细」"));
    assert!(!build("药品|明细", false, true, true).hits("保存明细"));
    assert!(!build("add|del", false, true, true).hits("delete all"));
    assert_eq!(build(r"r\d+", false, true, false).ranges("本次 r1208 提交").len(), 1);
}

#[test]
fn broken_regex_says_why_and_filters_nothing() {
    let search = Search::build("([", false, true, false);
    assert!(!search.error.is_empty(), "写错的表达式要给说明");
    assert!(search.hits("任意文本"), "写错不等于「谁都不匹配」");
    assert!(search.ranges("任意文本").is_empty(), "写错时不该高亮任何东西");
    assert!(Search::build("   ", false, false, false).is_empty());
    assert!(Search::build("", false, true, true).hits("任意文本"));
}

#[test]
fn highlight_marks_exactly_the_hits() {
    let search = build("fix", true, false, false);
    let (_, marked) = split(highlight_with("fix Fix FIX", &search));
    assert_eq!(marked, vec!["fix".to_owned()], "实际标了 {marked:?}");
}

// ---------------------------------------------------------------- ranges and pieces

#[test]
fn ranges_are_bytes_of_the_text() {
    let search = build("药", false, false, false);
    assert_eq!(search.ranges("a药b药"), [(1, 4), (5, 8)]);
    // Hits may overlap; what is marked does not.
    let search = build("aa", false, false, false);
    assert_eq!(search.ranges("aaa"), [(0, 2), (1, 3)]);
    let whole: String = highlight_with("aaa", &search).iter().map(|p| p.text.clone()).collect();
    assert_eq!(whole, "aaa");
    assert_eq!(build(r"\d+", false, true, false).ranges("r12 r3"), [(1, 3), (5, 6)]);
}

#[test]
fn pieces_make_up_the_text() {
    let text = "修复 r12：fix 药品 fix";
    for search in [
        build("fix", false, false, false),
        build(r"r\d+|药", false, true, false),
        build("x", false, false, true),
        Search::build("([", false, true, false),
    ] {
        let whole: String = highlight_with(text, &search).iter().map(|p| p.text.clone()).collect();
        assert_eq!(whole, text);
    }
}

#[test]
fn a_regex_that_can_match_nothing_marks_nothing_there() {
    let search = build("x*", false, true, false);
    let (plain, marks) = split(highlight_with("axxb", &search));
    assert_eq!(marks, ["xx"]);
    assert_eq!(plain, "ab");
}

#[test]
fn many_texts_are_searched_at_once() {
    let search = build("fix", false, false, false);
    let texts = vec!["a fix".to_owned(), "none".to_owned(), "FIX".to_owned()];
    assert_eq!(search.hits_each(&texts), [true, false, true]);
    let all = Search::build("", false, false, false);
    assert_eq!(all.hits_each(&texts), [true, true, true]);
    let digits = build(r"^\d+$", false, true, false);
    assert_eq!(digits.hits_each(&vec!["12".to_owned(), "1a".to_owned()]), [true, false]);
}

#[test]
fn many_texts_are_marked_at_once() {
    let texts = vec!["r12 r3".to_owned(), "none".to_owned(), String::new()];
    for search in [build(r"\d+", false, true, false), build("r", false, false, false), Search::build("(", false, true, false)] {
        let all = highlight_each(&texts, &search);
        assert_eq!(all.len(), 3);
        for (text, pieces) in texts.iter().zip(all) {
            let alone = highlight_with(text, &search);
            let plain = |v: &Vec<Piece>| v.iter().map(|p| (p.text.clone(), p.marked)).collect::<Vec<_>>();
            assert_eq!(plain(&pieces), plain(&alone));
        }
    }
    assert_eq!(build(r"\d+", false, true, false).ranges_each(&texts), [vec![(1, 3), (5, 6)], Vec::new(), Vec::new()]);
}

#[test]
fn case_goes_by_every_letter_of_the_alphabet_of_a_text() {
    assert!(slice_eq("ÄB", "äb", false));
    assert!(!slice_eq("ÄB", "äb", true));
    assert!(build("ä", false, false, false).hits("Ärger"));
}

#[test]
fn words_are_made_of_letters_digits_and_underscores() {
    assert!(is_word_char('a') && is_word_char('药') && is_word_char('7') && is_word_char('_'));
    assert!(!is_word_char('-') && !is_word_char('「') && !is_word_char(' '));
}

#[test]
fn marks_differ_between_the_themes() {
    assert_ne!(mark_colors(true), mark_colors(false));
}

#[test]
fn what_is_kept_is_marked() {
    for (needle, case, regex, word) in [
        ("药品", false, false, false),
        ("fix", false, false, true),
        ("FIX", true, false, false),
        ("药|r\\d+", false, true, false),
        ("add|del", false, true, true),
        ("x*", true, true, false),
    ] {
        let search = Search::build(needle, case, regex, word);
        for text in ["修复药品明细", "fix r12", "Fixed address", "del-药", ""] {
            let marks = highlight_with(text, &search).iter().any(|p| p.marked);
            assert_eq!(marks, search.hits(text), "{needle} {text}");
        }
    }
}
