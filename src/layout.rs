use vstd::prelude::*;
use crate::isolate::{chars_of, join, lemma_join_append};

verus! {

/// A word that the line breaker treats as a tag: it opens with `<` and
/// closes with `>`.
pub open spec fn is_tag_text(w: Seq<char>) -> bool {
    w.len() > 0 && w[0] == '<' && w.last() == '>'
}

/// A tag word that closes a style: it opens with `</`.
pub open spec fn is_closing_text(w: Seq<char>) -> bool {
    is_tag_text(w) && w.len() >= 2 && w[1] == '/'
}

/// Whether `word` (a word without its trailing spaces) is a closing tag.
pub fn is_closing_tag_word(word: &str) -> (r: bool)
    ensures
        r == is_closing_text(word@),
{
    let cs = chars_of(word);
    cs.len() >= 2 && cs[0] == '<' && cs[1] == '/' && cs[cs.len() - 1] == '>'
}

/// Whether `word` (a word without its trailing spaces) takes no room on a line.
pub fn is_tag_word(word: &str) -> (r: bool)
    ensures
        r == is_tag_text(word@),
{
    let cs = chars_of(word);
    cs.len() > 0 && cs[0] == '<' && cs[cs.len() - 1] == '>'
}

/// How many of the words marked in `tags` are plain words (not tags).
pub open spec fn clean_count(tags: Seq<bool>) -> nat
    decreases tags.len(),
{
    if tags.len() == 0 {
        0
    } else {
        clean_count(tags.drop_last()) + if tags.last() {
            0nat
        } else {
            1nat
        }
    }
}

/// The sum of the line lengths in `s`.
pub open spec fn total(s: Seq<usize>) -> int
    decreases s.len(),
{
    if s.len() == 0 {
        0
    } else {
        total(s.drop_last()) + s.last()
    }
}

/// `e` is where a line must end so that the lines before hold the first `c`
/// plain words: the first position at which `c` plain words have gone by.
/// The tags that stand before a plain word thus go with it.
pub open spec fn is_cut(tags: Seq<bool>, c: int, e: int) -> bool {
    &&& 0 <= e <= tags.len()
    &&& clean_count(tags.take(e)) == c
    &&& forall|w: int| 0 <= w < e ==> clean_count(#[trigger] tags.take(w)) < c
}

proof fn lemma_clean_count_step(tags: Seq<bool>, w: int)
    requires
        0 <= w < tags.len(),
    ensures
        clean_count(tags.take(w + 1)) == clean_count(tags.take(w)) + if tags[w] {
            0nat
        } else {
            1nat
        },
{
    assert(tags.take(w + 1).drop_last() =~= tags.take(w));
}

proof fn lemma_clean_count_le(tags: Seq<bool>)
    ensures
        clean_count(tags) <= tags.len(),
    decreases tags.len(),
{
    if tags.len() > 0 {
        lemma_clean_count_le(tags.drop_last());
    }
}

/// The plain words between positions `a` and `b`.
proof fn lemma_clean_count_split(tags: Seq<bool>, a: int, b: int)
    requires
        0 <= a <= b <= tags.len(),
    ensures
        clean_count(tags.take(b)) == clean_count(tags.take(a)) + clean_count(tags.subrange(a, b)),
    decreases b - a,
{
    if b == a {
        assert(tags.subrange(a, b) =~= Seq::<bool>::empty());
    } else {
        lemma_clean_count_split(tags, a, b - 1);
        lemma_clean_count_step(tags, b - 1);
        assert(tags.subrange(a, b).drop_last() =~= tags.subrange(a, b - 1));
    }
}

proof fn lemma_total_take_le(s: Seq<usize>, k: int)
    requires
        0 <= k <= s.len(),
    ensures
        total(s.take(k)) <= total(s),
    decreases s.len(),
{
    if k < s.len() {
        assert(s.take(k) =~= s.drop_last().take(k));
        lemma_total_take_le(s.drop_last(), k);
    } else {
        assert(s.take(k) =~= s);
    }
}

/// The positions of the plain words among the words marked in `tags`, in order.
pub open spec fn plain_positions(tags: Seq<bool>) -> Seq<int>
    decreases tags.len(),
{
    if tags.len() == 0 {
        Seq::empty()
    } else if tags.last() {
        plain_positions(tags.drop_last())
    } else {
        plain_positions(tags.drop_last()).push(tags.len() - 1)
    }
}

/// The positions of the plain words, in order: the words that the line
/// breaker sees once the tags are taken out.
pub fn strip_tags(is_tag: &Vec<bool>) -> (r: Vec<usize>)
    ensures
        r@.map_values(|p: usize| p as int) == plain_positions(is_tag@),
        r.len() == clean_count(is_tag@),
{
    let mut r: Vec<usize> = Vec::new();
    let mut i: usize = 0;
    while i < is_tag.len()
        invariant
            i <= is_tag.len(),
            r@.map_values(|p: usize| p as int) == plain_positions(is_tag@.take(i as int)),
            r.len() == clean_count(is_tag@.take(i as int)),
        decreases is_tag.len() - i,
    {
        proof {
            lemma_clean_count_step(is_tag@, i as int);
            assert(is_tag@.take(i + 1).drop_last() =~= is_tag@.take(i as int));
        }
        if !is_tag[i] {
            let ghost before = r@;
            r.push(i);
            assert(r@.map_values(|p: usize| p as int) =~= before.map_values(|p: usize| p as int).push(
                i as int,
            ));
        }
        i = i + 1;
    }
    assert(is_tag@.take(i as int) =~= is_tag@);
    r
}

/// The ranges in `r` cut positions `0..n` into consecutive pieces, in order.
pub open spec fn tiles(r: Seq<(usize, usize)>, n: int) -> bool {
    &&& r.len() >= 1
    &&& r[0].0 == 0
    &&& r.last().1 == n
    &&& forall|j: int| 0 < j < r.len() ==> #[trigger] r[j].0 == r[j - 1].1
    &&& forall|j: int| 0 <= j < r.len() ==> #[trigger] r[j].0 <= r[j].1 <= n
}

/// The text of each line: the words in its range, joined.
pub open spec fn line_texts(words: Seq<(Seq<char>, bool)>, r: Seq<(usize, usize)>) -> Seq<Seq<char>> {
    r.map_values(|x: (usize, usize)| join(words.subrange(x.0 as int, x.1 as int)))
}

proof fn lemma_line_texts_prefix(words: Seq<(Seq<char>, bool)>, r: Seq<(usize, usize)>, k: int)
    requires
        tiles(r, words.len() as int),
        1 <= k <= r.len(),
    ensures
        line_texts(words, r.take(k)).flatten() == join(words.subrange(0, r[k - 1].1 as int)),
    decreases k,
{
    let x = r[k - 1];
    if k == 1 {
        assert(line_texts(words, r.take(1)) =~= seq![join(words.subrange(0, x.1 as int))]);
        seq![join(words.subrange(0, x.1 as int))].lemma_flatten_one_element();
    } else {
        lemma_line_texts_prefix(words, r, k - 1);
        assert(r.take(k) =~= r.take(k - 1).push(x));
        assert(line_texts(words, r.take(k)) =~= line_texts(words, r.take(k - 1)).push(
            join(words.subrange(x.0 as int, x.1 as int)),
        ));
        line_texts(words, r.take(k - 1)).lemma_flatten_push(
            join(words.subrange(x.0 as int, x.1 as int)),
        );
        assert(x.0 == r[k - 2].1);
        lemma_join_append(words.subrange(0, x.0 as int), words.subrange(x.0 as int, x.1 as int));
        assert(words.subrange(0, x.0 as int) + words.subrange(x.0 as int, x.1 as int)
            =~= words.subrange(0, x.1 as int));
    }
}

/// Nothing is lost or repeated: for lines that cut the words into
/// consecutive ranges, the texts of the lines, joined in order, give the
/// words joined.
pub proof fn law_lines_rebuild_text(words: Seq<(Seq<char>, bool)>, r: Seq<(usize, usize)>)
    requires
        tiles(r, words.len() as int),
    ensures
        line_texts(words, r).flatten() == join(words),
{
    lemma_line_texts_prefix(words, r, r.len() as int);
    assert(r.take(r.len() as int) =~= r);
    assert(words.subrange(0, words.len() as int) =~= words);
}

/// The end of the run of closing tags that starts at position `e`.
pub open spec fn closing_run(tags: Seq<bool>, closing: Seq<bool>, e: int) -> int
    decreases tags.len() - e,
{
    if 0 <= e < tags.len() && tags[e] && closing[e] {
        closing_run(tags, closing, e + 1)
    } else {
        e
    }
}

/// Where a line whose plain words run out at the cut `e` ends: after the
/// closing tags that directly follow its last plain word, which close a
/// style opened on that line or before it.
pub open spec fn line_end(tags: Seq<bool>, closing: Seq<bool>, e: int) -> int {
    if e == 0 {
        0
    } else {
        closing_run(tags, closing, e)
    }
}

proof fn lemma_closing_run(tags: Seq<bool>, closing: Seq<bool>, e: int)
    requires
        0 <= e <= tags.len(),
    ensures
        e <= closing_run(tags, closing, e) <= tags.len(),
        closing_run(tags, closing, e) < tags.len() ==> !(tags[closing_run(tags, closing, e)]
            && closing[closing_run(tags, closing, e)]),
        forall|y: int| e <= y < closing_run(tags, closing, e) ==> tags[y] && closing[y],
        forall|y: int|
            e <= y <= closing_run(tags, closing, e) ==> clean_count(#[trigger] tags.take(y))
                == clean_count(tags.take(e)),
    decreases tags.len() - e,
{
    if e < tags.len() && tags[e] && closing[e] {
        lemma_closing_run(tags, closing, e + 1);
        lemma_clean_count_step(tags, e);
    }
}

proof fn lemma_cut_unique(tags: Seq<bool>, c: int, a: int, b: int)
    requires
        is_cut(tags, c, a),
        is_cut(tags, c, b),
    ensures
        a == b,
{
    if a < b {
        assert(clean_count(tags.take(a)) < c);
    } else if b < a {
        assert(clean_count(tags.take(b)) < c);
    }
}

/// `x` is where a line must end so that the lines before it hold the first
/// `c` plain words: after the cut for `c` and the closing tags that follow it.
pub open spec fn is_line_end(tags: Seq<bool>, closing: Seq<bool>, c: int, x: int) -> bool {
    exists|e: int| #[trigger] is_cut(tags, c, e) && x == line_end(tags, closing, e)
}

/// Maps a partition of the plain words into lines back onto all the words,
/// tags included. `is_tag` marks the tags among the words, `is_closing` the
/// closing ones; `clean_lines` gives how many plain words each line holds.
/// The closing tags that directly follow a line's last plain word stay on
/// that line; every other tag goes to the line of the plain word that
/// follows it; the last line takes every word left. The result holds each
/// line as the range `(start, end)` of its words.
pub fn reinsert_tags(is_tag: &Vec<bool>, is_closing: &Vec<bool>, clean_lines: &Vec<usize>) -> (r: Vec<
    (usize, usize),
>)
    requires
        is_closing.len() == is_tag.len(),
        clean_lines.len() >= 1,
        total(clean_lines@) == clean_count(is_tag@),
    ensures
        r.len() == clean_lines.len(),
        tiles(r@, is_tag.len() as int),
        forall|j: int|
            0 <= j < r.len() - 1 ==> is_line_end(
                is_tag@,
                is_closing@,
                total(clean_lines@.take(j + 1)),
                #[trigger] r[j].1 as int,
            ),
        forall|j: int|
            0 <= j < r.len() ==> clean_count(is_tag@.subrange(#[trigger] r[j].0 as int, r[j].1 as int))
                == clean_lines[j],
        forall|j: int|
            0 <= j < r.len() - 1 && r[j].0 < r[j].1 ==> !is_tag[#[trigger] r[j].1 - 1]
                || is_closing[r[j].1 - 1],
        forall|j: int|
            0 <= j < r.len() - 1 && 0 < #[trigger] r[j].1 < is_tag.len() ==> !(is_tag[r[j].1 as int]
                && is_closing[r[j].1 as int]),
{
    let n = is_tag.len();
    let t = clean_lines.len();
    let ghost tags = is_tag@;
    let ghost cl = is_closing@;
    let ghost m = clean_count(tags);
    proof {
        lemma_clean_count_le(tags);
        assert(tags.take(n as int) =~= tags);
        assert(clean_lines@.take(0) =~= Seq::<usize>::empty());
        assert(tags.take(0) =~= Seq::<bool>::empty());
    }
    let mut r: Vec<(usize, usize)> = Vec::new();
    let ghost mut cuts: Seq<int> = Seq::empty();
    let mut e: usize = 0;
    let mut line_start: usize = 0;
    let mut cnt: usize = 0;
    let mut target: usize = 0;
    let mut j: usize = 0;
    while j < t
        invariant
            n == is_tag.len(),
            n == is_closing.len(),
            t == clean_lines.len(),
            tags == is_tag@,
            cl == is_closing@,
            m == clean_count(tags),
            m <= n,
            total(clean_lines@) == m,
            j <= t,
            r.len() == j,
            cuts.len() == j,
            target == total(clean_lines@.take(j as int)),
            e <= n,
            tags.take(n as int) == tags,
            j < t ==> cnt == clean_count(tags.take(e as int)),
            j < t ==> cnt == target,
            j < t ==> is_cut(tags, target as int, e as int),
            j < t ==> line_start == line_end(tags, cl, e as int),
            line_start <= n,
            clean_count(tags.take(line_start as int)) == target,
            j == 0 ==> line_start == 0,
            j > 0 ==> line_start == r[j - 1].1,
            j == t ==> line_start == n,
            r.len() > 0 ==> r[0].0 == 0,
            forall|i: int| 0 < i < r.len() ==> #[trigger] r[i].0 == r[i - 1].1,
            forall|i: int| 0 <= i < r.len() ==> #[trigger] r[i].0 <= r[i].1 <= n,
            forall|i: int|
                0 <= i < r.len() && i < t - 1 ==> is_cut(
                    tags,
                    total(clean_lines@.take(i + 1)),
                    #[trigger] cuts[i],
                ) && r[i].1 == line_end(tags, cl, cuts[i]),
            forall|i: int|
                0 <= i < r.len() ==> clean_count(tags.subrange(#[trigger] r[i].0 as int, r[i].1 as int))
                    == clean_lines[i],
        decreases t - j,
    {
        let start = line_start;
        proof {
            assert(clean_lines@.take(j + 1).drop_last() =~= clean_lines@.take(j as int));
            lemma_total_take_le(clean_lines@, j + 1);
        }
        if j == t - 1 {
            proof {
                assert(clean_lines@.take(j + 1) =~= clean_lines@);
                lemma_clean_count_split(tags, start as int, n as int);
            }
            target = target + clean_lines[j];
            r.push((start, n));
            proof {
                cuts = cuts.push(n as int);
            }
            line_start = n;
        } else {
            let ghost e_old = e as int;
            let ghost target_old = target as int;
            target = target + clean_lines[j];
            while e < n && cnt < target
                invariant
                    n == is_tag.len(),
                    tags == is_tag@,
                    e_old <= e <= n,
                    cnt == clean_count(tags.take(e as int)),
                    cnt <= target,
                    target <= m,
                    m == clean_count(tags),
                    forall|w2: int| 0 <= w2 < e ==> clean_count(#[trigger] tags.take(w2)) < target,
                decreases n - e,
            {
                proof {
                    lemma_clean_count_step(tags, e as int);
                }
                if !is_tag[e] {
                    cnt = cnt + 1;
                }
                e = e + 1;
            }
            proof {
                if e == n {
                    assert(tags.take(n as int) =~= tags);
                }
                assert(is_cut(tags, target as int, e as int));
            }
            let mut x = e;
            if e > 0 {
                while x < n && is_tag[x] && is_closing[x]
                    invariant
                        n == is_tag.len(),
                        n == is_closing.len(),
                        tags == is_tag@,
                        cl == is_closing@,
                        e <= x <= n,
                        closing_run(tags, cl, x as int) == closing_run(tags, cl, e as int),
                    decreases n - x,
                {
                    x = x + 1;
                }
            }
            proof {
                lemma_closing_run(tags, cl, e as int);
                lemma_closing_run(tags, cl, e_old);
                assert(x == line_end(tags, cl, e as int));
                if x < start {
                    // the new cut lies in the closing run after the old one
                    assert(e_old <= e < start);
                    assert(clean_count(tags.take(e as int)) == target_old);
                    lemma_cut_unique(tags, target as int, e_old, e as int);
                }
                assert(start <= x);
                assert(clean_count(tags.take(x as int)) == target);
                lemma_clean_count_split(tags, start as int, x as int);
                cuts = cuts.push(e as int);
            }
            r.push((start, x));
            line_start = x;
        }
        j = j + 1;
    }
    proof {
        assert(r@.last() == r[r.len() - 1]);
        assert forall|j: int| 0 <= j < r.len() - 1 implies is_line_end(
            is_tag@,
            is_closing@,
            total(clean_lines@.take(j + 1)),
            #[trigger] r[j].1 as int,
        ) by {
            assert(is_cut(is_tag@, total(clean_lines@.take(j + 1)), cuts[j]));
            assert(r[j].1 == line_end(is_tag@, is_closing@, cuts[j]));
        }
        assert forall|j: int| 0 <= j < r.len() - 1 && r[j].0 < r[j].1 implies !is_tag[#[trigger] r[j].1
            - 1] || is_closing[r[j].1 - 1] by {
            let c = cuts[j];
            assert(is_cut(tags, total(clean_lines@.take(j + 1)), c));
            lemma_closing_run(tags, cl, c);
            if r[j].1 == c && c > 0 {
                lemma_ends_on_plain_word(tags, total(clean_lines@.take(j + 1)), c);
            }
        }
        assert forall|j: int| 0 <= j < r.len() - 1 && 0 < #[trigger] r[j].1 < is_tag.len() implies !(
        is_tag[r[j].1 as int] && is_closing[r[j].1 as int]) by {
            let c = cuts[j];
            assert(is_cut(tags, total(clean_lines@.take(j + 1)), c));
            lemma_closing_run(tags, cl, c);
        }
    }
    r
}

/// A cut after at least one word comes right after a plain word.
proof fn lemma_ends_on_plain_word(tags: Seq<bool>, c: int, e: int)
    requires
        is_cut(tags, c, e),
        0 < e,
    ensures
        !tags[e - 1],
{
    lemma_clean_count_step(tags, e - 1);
    assert(clean_count(tags.take(e - 1)) < c);
}

/// Why a line width cannot be used.
#[derive(Debug, Clone, Copy, PartialEq, Eq, Structural)]
pub enum WrapError {
    /// The line width, once scaled and rounded, is not positive.
    NonPositiveWidth,
}

impl WrapError {
    pub fn message(&self) -> (r: String)
        ensures
            r@ == "line width must be positive"@,
    {
        match self {
            WrapError::NonPositiveWidth => "line width must be positive".to_owned(),
        }
    }
}

/// Accepts a scaled and rounded line width when it is positive.
pub fn checked_line_width(rounded: i64) -> (r: Result<usize, WrapError>)
    ensures
        rounded > 0 ==> r == Ok::<usize, WrapError>(rounded as usize),
        rounded <= 0 ==> r == Err::<usize, WrapError>(WrapError::NonPositiveWidth),
{
    if rounded > 0 {
        Ok(rounded as usize)
    } else {
        Err(WrapError::NonPositiveWidth)
    }
}

} // verus!
