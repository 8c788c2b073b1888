use vstd::prelude::*;
use crate::isolate::{chunks, join, law_spans_rebuild_text, lemma_join_append, lemma_join_single, IsolateTags};

verus! {

/// The pieces into which Unicode line breaking cuts a text.
pub uninterp spec fn unicode_break_words(s: Seq<char>) -> Seq<Seq<char>>;

/// Relies on textwrap's `WordSeparator::UnicodeBreakProperties::find_words`:
/// it cuts the text at its line-break opportunities, and each `Word` it
/// hands out is one stretch of the text, its content followed by its
/// trailing spaces, the stretches following one another.
#[verifier::external_body]
fn find_unicode_words(section: &str) -> (r: Vec<String>)
    ensures
        r@.map_values(|w: String| w@) == unicode_break_words(section@),
        r@.map_values(|w: String| w@).flatten() == section@,
{
    textwrap::WordSeparator::UnicodeBreakProperties.find_words(section).map(
        |w| format!("{}{}", w.word, w.whitespace),
    ).collect()
}

/// A word to lay out: a piece of plain text, or a whole tag.
pub struct Segment {
    pub text: String,
    pub is_tag: bool,
}

pub open spec fn segments_view(v: Seq<Segment>) -> Seq<(Seq<char>, bool)> {
    v.map_values(|x: Segment| (x.text@, x.is_tag))
}

/// The non-empty pieces of `ws`, each marked as plain text.
pub open spec fn text_words(ws: Seq<Seq<char>>) -> Seq<(Seq<char>, bool)>
    decreases ws.len(),
{
    if ws.len() == 0 {
        Seq::empty()
    } else if ws.last().len() == 0 {
        text_words(ws.drop_last())
    } else {
        text_words(ws.drop_last()).push((ws.last(), false))
    }
}

/// The words of one span: a tag stays whole, plain text is cut where Unicode
/// line breaking allows.
pub open spec fn span_words(c: (Seq<char>, bool)) -> Seq<(Seq<char>, bool)> {
    if c.1 {
        seq![(c.0, true)]
    } else {
        text_words(unicode_break_words(c.0))
    }
}

/// The words of the spans in `c`, in order.
pub open spec fn words_of_chunks(c: Seq<(Seq<char>, bool)>) -> Seq<(Seq<char>, bool)>
    decreases c.len(),
{
    if c.len() == 0 {
        Seq::empty()
    } else {
        words_of_chunks(c.drop_last()) + span_words(c.last())
    }
}

/// The words of the text `s`.
pub open spec fn words(s: Seq<char>) -> Seq<(Seq<char>, bool)> {
    words_of_chunks(chunks(s))
}

/// The pieces of plain text that Unicode line breaking gave, each kept as a
/// plain-text word, with the empty ones left out.
pub fn text_segments(pieces: &Vec<String>) -> (r: Vec<Segment>)
    ensures
        segments_view(r@) == text_words(pieces@.map_values(|w: String| w@)),
        join(segments_view(r@)) == pieces@.map_values(|w: String| w@).flatten(),
{
    let ghost ws = pieces@.map_values(|w: String| w@);
    let mut r: Vec<Segment> = Vec::new();
    let mut k: usize = 0;
    proof {
        assert(ws.take(0) =~= Seq::<Seq<char>>::empty());
        assert(segments_view(r@) =~= Seq::<(Seq<char>, bool)>::empty());
    }
    while k < pieces.len()
        invariant
            k <= pieces.len(),
            ws == pieces@.map_values(|w: String| w@),
            segments_view(r@) == text_words(ws.take(k as int)),
            join(segments_view(r@)) == ws.take(k as int).flatten(),
        decreases pieces.len() - k,
    {
        let ghost prev = segments_view(r@);
        assert(ws.take(k + 1).drop_last() =~= ws.take(k as int));
        proof {
            assert(ws.take(k + 1) =~= ws.take(k as int).push(ws[k as int]));
            ws.take(k as int).lemma_flatten_push(ws[k as int]);
        }
        if !pieces[k].as_str().is_empty() {
            r.push(Segment { text: pieces[k].clone(), is_tag: false });
            assert(segments_view(r@) =~= prev.push((ws[k as int], false)));
            proof {
                lemma_join_append(prev, seq![(ws[k as int], false)]);
                assert(prev.push((ws[k as int], false)) =~= prev + seq![(ws[k as int], false)]);
                lemma_join_single((ws[k as int], false));
            }
        } else {
            assert(ws.take(k as int).flatten() + ws[k as int] =~= ws.take(k as int).flatten());
        }
        k = k + 1;
    }
    assert(ws.take(k as int) =~= ws);
    r
}

/// Cuts `line` into words: each tag whole, plain text at its Unicode
/// line-break opportunities, with no empty word.
pub fn split_words(line: &str) -> (r: Vec<Segment>)
    ensures
        segments_view(r@) == words(line@),
        join(segments_view(r@)) == line@,
{
    let mut it = IsolateTags::new(line);
    let mut r: Vec<Segment> = Vec::new();
    let ghost mut done: Seq<(Seq<char>, bool)> = Seq::empty();
    loop
        invariant
            it.wf(),
            done + it@ == chunks(line@),
            segments_view(r@) == words_of_chunks(done),
            join(segments_view(r@)) == join(done),
        ensures
            segments_view(r@) == words(line@),
            join(segments_view(r@)) == join(chunks(line@)),
        decreases it@.len(),
    {
        let ghost rest = it@;
        match it.next() {
            Some((section, is_tag)) => {
                let ghost before = segments_view(r@);
                let ghost c = (section@, is_tag);
                if is_tag {
                    r.push(Segment { text: section.to_owned(), is_tag: true });
                    assert(segments_view(r@) =~= before + seq![(section@, true)]);
                    proof {
                        lemma_join_append(before, seq![(section@, true)]);
                        lemma_join_single((section@, true));
                    }
                } else {
                    let pieces = find_unicode_words(section);
                    let mut text = text_segments(&pieces);
                    let ghost added = text@;
                    proof {
                        lemma_join_append(before, segments_view(added));
                    }
                    r.append(&mut text);
                    assert(segments_view(r@) =~= before + segments_view(added));
                    assert(segments_view(r@) =~= before + span_words(c));
                }
                assert(join(segments_view(r@)) == join(done) + section@);
                proof {
                    assert(rest[0] == c);
                    assert(done.push(c).drop_last() =~= done);
                    lemma_join_append(done, seq![c]);
                    assert(done.push(c) =~= done + seq![c]);
                    lemma_join_single(c);
                    done = done.push(c);
                    assert(done + rest.drop_first() =~= (done.drop_last() + rest));
                }
            },
            None => {
                assert(done + it@ =~= done);
                break;
            },
        }
    }
    proof {
        law_spans_rebuild_text(line@);
    }
    r
}

/// The tags among `v`, in order.
pub open spec fn tag_entries(v: Seq<(Seq<char>, bool)>) -> Seq<(Seq<char>, bool)> {
    v.filter(|w: (Seq<char>, bool)| w.1)
}

proof fn lemma_text_words_hold_no_tag(ws: Seq<Seq<char>>)
    ensures
        tag_entries(text_words(ws)) == Seq::<(Seq<char>, bool)>::empty(),
    decreases ws.len(),
{
    reveal(Seq::filter);
    if ws.len() > 0 {
        lemma_text_words_hold_no_tag(ws.drop_last());
        if ws.last().len() > 0 {
            let v = text_words(ws);
            assert(v.drop_last() =~= text_words(ws.drop_last()));
        }
    }
}

proof fn lemma_tags_of_words_of_chunks(c: Seq<(Seq<char>, bool)>)
    ensures
        tag_entries(words_of_chunks(c)) == tag_entries(c),
    decreases c.len(),
{
    reveal(Seq::filter);
    if c.len() > 0 {
        let last = c.last();
        lemma_tags_of_words_of_chunks(c.drop_last());
        Seq::filter_distributes_over_add(
            words_of_chunks(c.drop_last()),
            span_words(last),
            |w: (Seq<char>, bool)| w.1,
        );
        if last.1 {
            let one = seq![last];
            assert(one.drop_last() =~= Seq::<(Seq<char>, bool)>::empty());
            assert(tag_entries(one) =~= one);
            assert(tag_entries(c) =~= tag_entries(c.drop_last()).push(last));
        } else {
            lemma_text_words_hold_no_tag(unicode_break_words(last.0));
            assert(tag_entries(c) =~= tag_entries(c.drop_last()));
            assert(tag_entries(words_of_chunks(c.drop_last())) + Seq::<(Seq<char>, bool)>::empty()
                =~= tag_entries(words_of_chunks(c.drop_last())));
        }
    }
}

/// Tags are never cut: the tags among the words of `s` are exactly the tag
/// spans of `s`, each one whole word, in the same order.
pub proof fn law_tags_stay_whole(s: Seq<char>)
    ensures
        tag_entries(words(s)) == tag_entries(chunks(s)),
{
    lemma_tags_of_words_of_chunks(chunks(s));
}

} // verus!
