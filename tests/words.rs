use tag_wrap::words::{split_words, text_segments};

fn words(s: &str) -> Vec<(String, bool)> {
    split_words(s).into_iter().map(|w| (w.text, w.is_tag)).collect()
}

fn owned(v: &[(&str, bool)]) -> Vec<(String, bool)> {
    v.iter().map(|(c, t)| (c.to_string(), *t)).collect()
}

#[test]
fn plain_text_is_cut_at_spaces() {
    assert_eq!(words("hello world"), owned(&[("hello ", false), ("world", false)]));
}

#[test]
fn tags_stay_whole() {
    assert_eq!(
        words("The <b>quick</b> fox"),
        owned(&[("The ", false), ("<b>", true), ("quick", false), ("</b> ", true), ("fox", false)])
    );
    assert_eq!(
        words("<size=16 x y>big text</size>"),
        owned(&[("<size=16 x y>", true), ("big ", false), ("text", false), ("</size>", true)])
    );
}

#[test]
fn empty_line_has_no_word() {
    assert!(words("").is_empty());
}

#[test]
fn words_rebuild_the_line() {
    for s in ["The <b>quick</b> fox", "a  b<i> c </i>", "x<y z", "日本語 <b>テキスト</b>"] {
        let joined: String = words(s).into_iter().map(|(c, _)| c).collect();
        assert_eq!(joined, s);
    }
}

#[test]
fn tag_words_are_the_tag_spans() {
    let s = "a<b>c</b>d <size=16> big </size>";
    let tag_words: Vec<String> = words(s).into_iter().filter(|w| w.1).map(|w| w.0).collect();
    let tag_spans: Vec<String> = tag_wrap::isolate_tags_owned(s)
        .into_iter()
        .filter(|x| x.is_tag)
        .map(|x| x.chunk)
        .collect();
    assert_eq!(tag_words, tag_spans);
    assert_eq!(tag_words, vec!["<b>", "</b>", "<size=16> ", "</size>"]);
}

#[test]
fn text_segments_drop_empty_pieces() {
    let pieces = vec!["a ".to_string(), String::new(), "b".to_string()];
    let got: Vec<(String, bool)> =
        text_segments(&pieces).into_iter().map(|w| (w.text, w.is_tag)).collect();
    assert_eq!(got, owned(&[("a ", false), ("b", false)]));
    assert!(text_segments(&vec![]).is_empty());
}
