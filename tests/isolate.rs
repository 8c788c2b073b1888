use tag_wrap::isolate::{isolate_tags_owned, IsolateTags};

fn sections(s: &str) -> Vec<(String, bool)> {
    isolate_tags_owned(s).into_iter().map(|x| (x.chunk, x.is_tag)).collect()
}

fn owned(v: &[(&str, bool)]) -> Vec<(String, bool)> {
    v.iter().map(|(c, t)| (c.to_string(), *t)).collect()
}

#[test]
fn tags_are_classified() {
    assert_eq!(
        sections("a<b>c</b>d"),
        owned(&[("a", false), ("<b>", true), ("c", false), ("</b>", true), ("d", false)])
    );
}

#[test]
fn whitespace_after_tag_is_absorbed() {
    assert_eq!(sections("<b> c</b>"), owned(&[("<b> ", true), ("c", false), ("</b>", true)]));
    assert_eq!(sections("<b>\t\n c</b>"), owned(&[("<b>\t\n ", true), ("c", false), ("</b>", true)]));
}

#[test]
fn unmatched_tag_degrades_to_text() {
    assert_eq!(sections("x<y"), owned(&[("x<y", false)]));
    assert_eq!(sections("a <x> b"), owned(&[("a <x> b", false)]));
    assert_eq!(sections("1 < 2 <i>ok</i>"), owned(&[("1 < 2 ", false), ("<i>", true), ("ok", false), ("</i>", true)]));
}

#[test]
fn empty_input_has_no_span() {
    assert!(sections("").is_empty());
}

#[test]
fn tag_with_attribute() {
    assert_eq!(
        sections("test<size=16>hello world</size>"),
        owned(&[("test", false), ("<size=16>", true), ("hello world", false), ("</size>", true)])
    );
}

#[test]
fn bad_name_character_is_text() {
    assert_eq!(
        sections("<<b>x</b>"),
        owned(&[("<", false), ("<b>", true), ("x", false), ("</b>", true)])
    );
    assert_eq!(sections("<b1>x</b1>"), owned(&[("<b1>x</b1>", false)]));
}

#[test]
fn closing_tag_with_space_is_text() {
    assert_eq!(sections("</b x>"), owned(&[("</b x>", false)]));
    assert_eq!(sections("</b"), owned(&[("</b", false)]));
}

#[test]
fn empty_tag_names() {
    assert_eq!(sections("</>"), owned(&[("</>", true)]));
    assert_eq!(sections("<>"), owned(&[("<>", false)]));
}

#[test]
fn non_ascii_text_is_kept() {
    assert_eq!(
        sections("héllo <i>wörld</i>"),
        owned(&[("héllo ", false), ("<i>", true), ("wörld", false), ("</i>", true)])
    );
}

#[test]
fn spans_rebuild_the_input() {
    for s in ["a<b>c</b>d", "x<y", "<b> c</b>  end", "<size=16>ü</size> <", "<<<>>>", ""] {
        let joined: String = sections(s).into_iter().map(|(c, _)| c).collect();
        assert_eq!(joined, s);
    }
}

#[test]
fn iterator_hands_out_slices() {
    let mut it = IsolateTags::new("a<b>c</b>");
    assert_eq!(it.next(), Some(("a", false)));
    assert_eq!(it.next(), Some(("<b>", true)));
    assert_eq!(it.next(), Some(("c", false)));
    assert_eq!(it.next(), Some(("</b>", true)));
    assert_eq!(it.next(), None);
    assert_eq!(it.next(), None);
}
