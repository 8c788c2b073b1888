use tag_wrap::layout::{
    checked_line_width, is_closing_tag_word, is_tag_word, reinsert_tags, strip_tags, WrapError,
};
use tag_wrap::words::split_words;

#[test]
fn tag_words_are_recognised() {
    assert!(is_tag_word("<b>"));
    assert!(is_tag_word("</size>"));
    assert!(is_tag_word("<>"));
    assert!(!is_tag_word("<"));
    assert!(!is_tag_word("b>"));
    assert!(!is_tag_word("<b"));
    assert!(!is_tag_word(""));
    assert!(!is_tag_word("<b>\n"));
}

#[test]
fn closing_tags_are_recognised() {
    assert!(is_closing_tag_word("</b>"));
    assert!(is_closing_tag_word("</>"));
    assert!(!is_closing_tag_word("<b>"));
    assert!(!is_closing_tag_word("</b"));
    assert!(!is_closing_tag_word("/b>"));
    assert!(!is_closing_tag_word("<"));
}

#[test]
fn opening_tag_goes_with_the_next_word() {
    // The <b>quick</b> fox: words The, <b>, quick, </b>, fox.
    let tags = vec![false, true, false, true, false];
    let closing = vec![false, false, false, true, false];
    assert_eq!(reinsert_tags(&tags, &closing, &vec![1, 2]), vec![(0, 1), (1, 5)]);
}

#[test]
fn closing_tag_stays_with_the_earlier_line() {
    let tags = vec![false, true, false, true, false];
    let closing = vec![false, false, false, true, false];
    assert_eq!(reinsert_tags(&tags, &closing, &vec![2, 1]), vec![(0, 4), (4, 5)]);
    assert_eq!(reinsert_tags(&tags, &closing, &vec![1, 1, 1]), vec![(0, 1), (1, 4), (4, 5)]);
    // a closing tag then an opening tag at a boundary: each goes its way
    let tags = vec![false, true, true, false];
    let closing = vec![false, true, false, false];
    assert_eq!(reinsert_tags(&tags, &closing, &vec![1, 1]), vec![(0, 2), (2, 4)]);
    // an opening tag first stops the run of closing tags
    let closing = vec![false, false, true, false];
    assert_eq!(reinsert_tags(&tags, &closing, &vec![1, 1]), vec![(0, 1), (1, 4)]);
}

#[test]
fn no_tags_keeps_the_partition() {
    let tags = vec![false; 5];
    assert_eq!(reinsert_tags(&tags, &tags, &vec![2, 2, 1]), vec![(0, 2), (2, 4), (4, 5)]);
    assert_eq!(reinsert_tags(&tags, &tags, &vec![5]), vec![(0, 5)]);
}

#[test]
fn trailing_and_leading_tags() {
    let tags = vec![true, false, false, true, true];
    let closing = vec![false, false, false, true, false];
    assert_eq!(reinsert_tags(&tags, &closing, &vec![1, 1]), vec![(0, 2), (2, 5)]);
    assert_eq!(reinsert_tags(&tags, &closing, &vec![2, 0]), vec![(0, 4), (4, 5)]);
}

#[test]
fn only_tags_form_one_line() {
    let tags = vec![true, true];
    assert_eq!(reinsert_tags(&tags, &tags, &vec![0]), vec![(0, 2)]);
    assert_eq!(reinsert_tags(&vec![], &vec![], &vec![0]), vec![(0, 0)]);
}

#[test]
fn line_width_must_be_positive() {
    assert_eq!(checked_line_width(10), Ok(10));
    assert_eq!(checked_line_width(1), Ok(1));
    assert_eq!(checked_line_width(0), Err(WrapError::NonPositiveWidth));
    assert_eq!(checked_line_width(-4), Err(WrapError::NonPositiveWidth));
    assert_eq!(WrapError::NonPositiveWidth.message(), "line width must be positive");
}

#[test]
fn bold_word_keeps_its_tags() {
    let words = split_words("The <b>quick</b> fox");
    let tags: Vec<bool> = words.iter().map(|w| w.is_tag).collect();
    let closing: Vec<bool> = words.iter().map(|w| is_closing_tag_word(w.text.trim_end())).collect();
    let lines: Vec<String> = reinsert_tags(&tags, &closing, &vec![2, 1])
        .into_iter()
        .map(|(a, b)| words[a..b].iter().map(|w| w.text.as_str()).collect())
        .collect();
    assert_eq!(lines, vec!["The <b>quick</b> ".to_string(), "fox".to_string()]);
    let lines: Vec<String> = reinsert_tags(&tags, &closing, &vec![1, 2])
        .into_iter()
        .map(|(a, b)| words[a..b].iter().map(|w| w.text.as_str()).collect())
        .collect();
    assert_eq!(lines, vec!["The ".to_string(), "<b>quick</b> fox".to_string()]);
}

#[test]
fn lines_rebuild_the_text() {
    let text = "<size=16>Big</size> and <i>small</i> words here";
    let words = split_words(text);
    let tags: Vec<bool> = words.iter().map(|w| w.is_tag).collect();
    let closing: Vec<bool> = words.iter().map(|w| is_closing_tag_word(w.text.trim_end())).collect();
    let plain = tags.iter().filter(|t| !**t).count();
    assert_eq!(plain, 5);
    let ranges = reinsert_tags(&tags, &closing, &vec![2, 2, 1]);
    let joined: String = ranges
        .iter()
        .flat_map(|(a, b)| words[*a..*b].iter().map(|w| w.text.as_str()))
        .collect();
    assert_eq!(joined, text);
    for (i, (a, b)) in ranges.iter().enumerate() {
        let n = tags[*a..*b].iter().filter(|t| !**t).count();
        assert_eq!(n, [2, 2, 1][i]);
        if i + 1 < ranges.len() && a < b {
            assert!(!tags[b - 1] || closing[b - 1]);
            assert!(!(tags[*b] && closing[*b]));
        }
    }
}

#[test]
fn stripping_keeps_plain_positions() {
    assert_eq!(strip_tags(&vec![false, true, false, true, false]), vec![0, 2, 4]);
    assert_eq!(strip_tags(&vec![true, true]), Vec::<usize>::new());
    assert_eq!(strip_tags(&vec![]), Vec::<usize>::new());
    assert_eq!(strip_tags(&vec![false, false]), vec![0, 1]);
}
