use vstd::prelude::*;
use vstd::std_specs::iter::IteratorSpec;
use vstd::string::*;

verus! {

/// Whitespace that is folded into the tag span it follows: the ASCII
/// characters that `char::is_whitespace` accepts.
pub open spec fn is_tag_space(c: char) -> bool {
    c == ' ' || c == '\t' || c == '\n' || c == '\x0B' || c == '\x0C' || c == '\r'
}

pub open spec fn is_name_char(c: char) -> bool {
    ('a' <= c && c <= 'z') || ('A' <= c && c <= 'Z')
}

/// The closing tag `</name>` that an opening tag of that name needs.
pub open spec fn closing_tag(name: Seq<char>) -> Seq<char> {
    seq!['<', '/'] + name + seq!['>']
}

pub open spec fn occurs_at(s: Seq<char>, j: int, pat: Seq<char>) -> bool {
    0 <= j && j + pat.len() <= s.len() && s.subrange(j, j + pat.len()) == pat
}

/// `pat` occurs in `s` at or after position `from`.
pub open spec fn occurs_from(s: Seq<char>, from: int, pat: Seq<char>) -> bool {
    exists|j: int| from <= j && #[trigger] occurs_at(s, j, pat)
}

/// Scans a candidate tag opened by the `<` at `start`, from position `i` on,
/// and gives the position of the `>` that closes it, or `None` where the
/// candidate is not a tag. `closing` records a `/` right after the `<`;
/// `expecting` that the tag name is still being read. The forms it accepts
/// are `is_tag_at`'s (see `lemma_tag_close_forms`).
pub open spec fn scan_tag(s: Seq<char>, start: int, i: int, closing: bool, expecting: bool) -> Option<int>
    decreases s.len() - i,
{
    if i < 0 || i >= s.len() {
        None
    } else {
        let c = s[i];
        if c == '>' || c == '=' || c == ' ' {
            if expecting && !closing && !occurs_from(s, i, closing_tag(s.subrange(start + 1, i))) {
                None
            } else if c == '>' {
                Some(i)
            } else if closing {
                None
            } else {
                scan_tag(s, start, i + 1, closing, false)
            }
        } else if c == '/' {
            if i == start + 1 {
                scan_tag(s, start, i + 1, true, expecting)
            } else if expecting {
                None
            } else {
                scan_tag(s, start, i + 1, closing, expecting)
            }
        } else if expecting && !is_name_char(c) {
            None
        } else {
            scan_tag(s, start, i + 1, closing, expecting)
        }
    }
}

/// The first position at or after `i` that does not hold tag whitespace.
pub open spec fn skip_spaces(s: Seq<char>, i: int) -> int
    decreases s.len() - i,
{
    if i < 0 || i >= s.len() || !is_tag_space(s[i]) {
        i
    } else {
        skip_spaces(s, i + 1)
    }
}

/// The position of the `>` that closes the tag opened at `start`, if a tag
/// opens there.
pub open spec fn tag_close(s: Seq<char>, start: int) -> Option<int> {
    if 0 <= start < s.len() && s[start] == '<' {
        scan_tag(s, start, start + 1, false, true)
    } else {
        None
    }
}

/// Every position in `a..b` holds an ASCII letter.
pub open spec fn name_between(s: Seq<char>, a: int, b: int) -> bool {
    forall|k: int| a <= k < b ==> is_name_char(#[trigger] s[k])
}

/// No position in `a..b` holds a `>`.
pub open spec fn no_close_between(s: Seq<char>, a: int, b: int) -> bool {
    forall|k: int| a <= k < b ==> #[trigger] s[k] != '>'
}

/// The opening forms of a tag, with the name from `name_start` on and its
/// `>` at `g`: `<N>`, or `<N` followed by `=` or a space, text without `>`,
/// and `>`. The name N is ASCII letters, possibly none, and `</N>` must
/// occur at or after the end of N.
pub open spec fn opening_form(s: Seq<char>, start: int, name_start: int, g: int) -> bool {
    &&& name_start <= g < s.len()
    &&& s[g] == '>'
    &&& {
        ||| name_between(s, name_start, g) && occurs_from(
            s,
            g,
            closing_tag(s.subrange(start + 1, g)),
        )
        ||| exists|p: int|
            name_start <= p < g && (s[p] == '=' || s[p] == ' ') && name_between(s, name_start, p)
                && #[trigger] occurs_from(s, p, closing_tag(s.subrange(start + 1, p)))
                && no_close_between(s, p + 1, g)
    }
}

/// A tag stands at `start` with its `>` at `g`: `</N>`, or an opening form.
pub open spec fn is_tag_at(s: Seq<char>, start: int, g: int) -> bool {
    &&& 0 <= start
    &&& start + 1 <= g < s.len()
    &&& s[start] == '<'
    &&& if s[start + 1] == '/' {
        s[g] == '>' && start + 2 <= g && name_between(s, start + 2, g)
    } else {
        opening_form(s, start, start + 1, g)
    }
}

proof fn lemma_scan_attributes(s: Seq<char>, start: int, i: int, g: int)
    requires
        0 <= start,
        start + 1 < i,
    ensures
        scan_tag(s, start, i, false, false) == Some(g) <==> (i <= g < s.len() && s[g] == '>'
            && no_close_between(s, i, g)),
    decreases s.len() - i,
{
    if i < s.len() {
        lemma_scan_attributes(s, start, i + 1, g);
        if s[i] != '>' && g > i {
            assert(no_close_between(s, i, g) <==> no_close_between(s, i + 1, g));
        }
    }
}

proof fn lemma_scan_closing_name(s: Seq<char>, start: int, i: int, g: int)
    requires
        0 <= start,
        start + 2 <= i,
    ensures
        scan_tag(s, start, i, true, true) == Some(g) <==> (i <= g < s.len() && s[g] == '>'
            && name_between(s, i, g)),
    decreases s.len() - i,
{
    if i < s.len() {
        lemma_scan_closing_name(s, start, i + 1, g);
        if g > i {
            assert(name_between(s, i, g) <==> is_name_char(s[i]) && name_between(s, i + 1, g));
        }
    }
}

proof fn lemma_scan_opening_name(s: Seq<char>, start: int, i: int, g: int)
    requires
        0 <= start,
        start + 1 <= i,
        i == start + 1 && i < s.len() ==> s[i] != '/',
    ensures
        scan_tag(s, start, i, false, true) == Some(g) <==> opening_form(s, start, i, g),
    decreases s.len() - i,
{
    if i < s.len() {
        let c = s[i];
        if is_name_char(c) {
            lemma_scan_opening_name(s, start, i + 1, g);
            if g > i {
                assert(name_between(s, i, g) <==> name_between(s, i + 1, g));
            }
            if opening_form(s, start, i, g) && !(name_between(s, i, g) && occurs_from(
                s,
                g,
                closing_tag(s.subrange(start + 1, g)),
            )) {
                let p = choose|p: int|
                    i <= p < g && (s[p] == '=' || s[p] == ' ') && name_between(s, i, p)
                        && #[trigger] occurs_from(s, p, closing_tag(s.subrange(start + 1, p)))
                        && no_close_between(s, p + 1, g);
                assert(p > i);
                assert(name_between(s, i + 1, p));
            }
            if opening_form(s, start, i + 1, g) && !(name_between(s, i + 1, g) && occurs_from(
                s,
                g,
                closing_tag(s.subrange(start + 1, g)),
            )) {
                let p = choose|p: int|
                    i + 1 <= p < g && (s[p] == '=' || s[p] == ' ') && name_between(s, i + 1, p)
                        && #[trigger] occurs_from(s, p, closing_tag(s.subrange(start + 1, p)))
                        && no_close_between(s, p + 1, g);
                assert(name_between(s, i, p));
            }
        } else if (c == '=' || c == ' ') && occurs_from(s, i, closing_tag(s.subrange(start + 1, i))) {
            lemma_scan_attributes(s, start, i + 1, g);
            if opening_form(s, start, i, g) {
                if !(name_between(s, i, g) && occurs_from(
                    s,
                    g,
                    closing_tag(s.subrange(start + 1, g)),
                )) {
                    let p = choose|p: int|
                        i <= p < g && (s[p] == '=' || s[p] == ' ') && name_between(s, i, p)
                            && #[trigger] occurs_from(s, p, closing_tag(s.subrange(start + 1, p)))
                            && no_close_between(s, p + 1, g);
                    if p > i {
                        assert(!is_name_char(s[i]));
                    }
                } else {
                    assert(!is_name_char(s[i]));
                }
            }
            if scan_tag(s, start, i, false, true) == Some(g) {
                assert(name_between(s, i, i));
            }
        } else {
            if opening_form(s, start, i, g) {
                if !(name_between(s, i, g) && occurs_from(
                    s,
                    g,
                    closing_tag(s.subrange(start + 1, g)),
                )) {
                    let p = choose|p: int|
                        i <= p < g && (s[p] == '=' || s[p] == ' ') && name_between(s, i, p)
                            && #[trigger] occurs_from(s, p, closing_tag(s.subrange(start + 1, p)))
                            && no_close_between(s, p + 1, g);
                    if p > i {
                        assert(!is_name_char(s[i]));
                    }
                } else if g > i {
                    assert(!is_name_char(s[i]));
                }
            }
        }
    }
}

/// The scan recognises exactly the tag forms: a tag opens at `start` and
/// closes at `g` just when `is_tag_at(s, start, g)`.
pub proof fn lemma_tag_close_forms(s: Seq<char>, start: int, g: int)
    requires
        0 <= start,
    ensures
        tag_close(s, start) == Some(g) <==> is_tag_at(s, start, g),
{
    if start < s.len() && s[start] == '<' && start + 1 < s.len() {
        if s[start + 1] == '/' {
            lemma_scan_closing_name(s, start, start + 2, g);
        } else {
            lemma_scan_opening_name(s, start, start + 1, g);
        }
    }
}

/// The first position at or after `i` where a tag opens, or the end.
pub open spec fn next_tag(s: Seq<char>, i: int) -> int
    decreases s.len() - i,
{
    if i < 0 || i >= s.len() || tag_close(s, i) is Some {
        i
    } else {
        next_tag(s, i + 1)
    }
}

/// The end of the span that starts at `start`, and whether it is a tag.
/// A tag runs through its `>` and the whitespace after it; plain text runs
/// up to the next tag.
pub open spec fn span_end(s: Seq<char>, start: int) -> (int, bool) {
    match tag_close(s, start) {
        Some(g) => (skip_spaces(s, g + 1), true),
        None => (next_tag(s, start + 1), false),
    }
}

pub proof fn lemma_scan_tag_bounds(s: Seq<char>, start: int, i: int, closing: bool, expecting: bool)
    requires
        0 <= i,
    ensures
        scan_tag(s, start, i, closing, expecting) matches Some(g) ==> i <= g < s.len(),
    decreases s.len() - i,
{
    if i < s.len() {
        let c = s[i];
        if c == '>' || c == '=' || c == ' ' {
            if !closing && (c == '=' || c == ' ') {
                lemma_scan_tag_bounds(s, start, i + 1, closing, false);
            }
        } else if c == '/' {
            lemma_scan_tag_bounds(s, start, i + 1, i == start + 1 || closing, expecting);
        } else {
            lemma_scan_tag_bounds(s, start, i + 1, closing, expecting);
        }
    }
}

pub proof fn lemma_skip_spaces_bounds(s: Seq<char>, i: int)
    requires
        0 <= i <= s.len(),
    ensures
        i <= skip_spaces(s, i) <= s.len(),
    decreases s.len() - i,
{
    if i < s.len() && is_tag_space(s[i]) {
        lemma_skip_spaces_bounds(s, i + 1);
    }
}

pub proof fn lemma_next_tag_bounds(s: Seq<char>, i: int)
    requires
        0 <= i <= s.len(),
    ensures
        i <= next_tag(s, i) <= s.len(),
    decreases s.len() - i,
{
    if i < s.len() && tag_close(s, i) is None {
        lemma_next_tag_bounds(s, i + 1);
    }
}

/// Every span is non-empty and ends inside the input.
pub proof fn lemma_span_end_bounds(s: Seq<char>, start: int)
    requires
        0 <= start < s.len(),
    ensures
        start < span_end(s, start).0 <= s.len(),
{
    lemma_next_tag_bounds(s, start + 1);
    if s[start] == '<' {
        lemma_scan_tag_bounds(s, start, start + 1, false, true);
        if let Some(g) = scan_tag(s, start, start + 1, false, true) {
            lemma_skip_spaces_bounds(s, g + 1);
        }
    }
}

/// The spans of `s` from position `start` on, each as its text and whether it
/// is a tag.
pub open spec fn chunks_from(s: Seq<char>, start: int) -> Seq<(Seq<char>, bool)>
    decreases s.len() - start,
{
    if start < 0 || start >= s.len() {
        Seq::empty()
    } else {
        let (end, is_tag) = span_end(s, start);
        proof {
            lemma_span_end_bounds(s, start);
        }
        seq![(s.subrange(start, end), is_tag)] + chunks_from(s, end)
    }
}

/// The spans of `s`, in order.
pub open spec fn chunks(s: Seq<char>) -> Seq<(Seq<char>, bool)> {
    chunks_from(s, 0)
}

/// The texts of `c` joined in order.
pub open spec fn join(c: Seq<(Seq<char>, bool)>) -> Seq<char>
    decreases c.len(),
{
    if c.len() == 0 {
        Seq::empty()
    } else {
        c[0].0 + join(c.drop_first())
    }
}

pub proof fn lemma_join_append(a: Seq<(Seq<char>, bool)>, b: Seq<(Seq<char>, bool)>)
    ensures
        join(a + b) == join(a) + join(b),
    decreases a.len(),
{
    if a.len() == 0 {
        assert(a + b =~= b);
        assert(join(a) + join(b) =~= join(b));
    } else {
        assert((a + b).drop_first() =~= a.drop_first() + b);
        lemma_join_append(a.drop_first(), b);
        assert(join(a + b) =~= join(a) + join(b));
    }
}

pub proof fn lemma_join_single(x: (Seq<char>, bool))
    ensures
        join(seq![x]) == x.0,
{
    assert(seq![x].drop_first() =~= Seq::<(Seq<char>, bool)>::empty());
    assert(join(Seq::<(Seq<char>, bool)>::empty()) == Seq::<char>::empty());
    assert(x.0 + Seq::<char>::empty() =~= x.0);
}

proof fn lemma_join_chunks_from(s: Seq<char>, start: int)
    requires
        0 <= start <= s.len(),
    ensures
        join(chunks_from(s, start)) == s.subrange(start, s.len() as int),
    decreases s.len() - start,
{
    if start < s.len() {
        let (end, is_tag) = span_end(s, start);
        lemma_span_end_bounds(s, start);
        let c = chunks_from(s, start);
        assert(c.drop_first() =~= chunks_from(s, end));
        lemma_join_chunks_from(s, end);
        assert(s.subrange(start, end) + s.subrange(end, s.len() as int) =~= s.subrange(
            start,
            s.len() as int,
        ));
    } else {
        assert(s.subrange(start, s.len() as int) =~= Seq::<char>::empty());
    }
}

/// Isolating loses and adds nothing: the spans of `s`, joined in order, give
/// back `s`.
pub proof fn law_spans_rebuild_text(s: Seq<char>)
    ensures
        join(chunks(s)) == s,
{
    lemma_join_chunks_from(s, 0);
    assert(s.subrange(0, s.len() as int) =~= s);
}

/// Reads the characters of `s` into a vector.
pub fn chars_of(s: &str) -> (r: Vec<char>)
    ensures
        r@ == s@,
{
    broadcast use vstd::string::axiom_spec_iter, vstd::string::next_postcondition;

    let mut it = s.chars();
    let mut r: Vec<char> = Vec::new();
    loop
        invariant
            it.obeys_prophetic_iter_laws(),
            it.decrease() is Some,
            r@ + it.remaining() == s@,
        ensures
            r@ == s@,
        decreases it.decrease()->0,
    {
        match it.next() {
            Some(c) => r.push(c),
            None => {
                assert(r@ + it.remaining() =~= r@);
                break;
            },
        }
    }
    r
}

fn is_tag_space_char(c: char) -> (r: bool)
    ensures
        r == is_tag_space(c),
{
    c == ' ' || c == '\t' || c == '\n' || c == '\x0B' || c == '\x0C' || c == '\r'
}

fn is_name_char_exec(c: char) -> (r: bool)
    ensures
        r == is_name_char(c),
{
    ('a' <= c && c <= 'z') || ('A' <= c && c <= 'Z')
}

fn skip_spaces_exec(s: &Vec<char>, i: usize) -> (r: usize)
    requires
        i <= s.len(),
    ensures
        r == skip_spaces(s@, i as int),
{
    let mut k = i;
    while k < s.len() && is_tag_space_char(s[k])
        invariant
            i <= k <= s.len(),
            skip_spaces(s@, k as int) == skip_spaces(s@, i as int),
        decreases s.len() - k,
    {
        k = k + 1;
    }
    k
}

/// Whether `</name>` occurs in `s` at or after `from`, where the name is
/// `s[name_start..name_end]`.
fn closing_tag_follows(s: &Vec<char>, from: usize, name_start: usize, name_end: usize) -> (r: bool)
    requires
        1 <= name_start <= name_end <= from <= s.len(),
    ensures
        r == occurs_from(s@, from as int, closing_tag(s@.subrange(name_start as int, name_end as int))),
{
    let ghost pat = closing_tag(s@.subrange(name_start as int, name_end as int));
    let name_len = name_end - name_start;
    if name_len > s.len() - from || 3 > s.len() - from - name_len {
        assert forall|j: int| from <= j implies !#[trigger] occurs_at(s@, j, pat) by {}
        return false;
    }
    let plen = name_len + 3;
    assert(pat.len() == plen);
    let last = s.len() - plen;
    let mut j = from;
    while j <= last
        invariant
            from <= j <= last + 1,
            last + plen == s.len(),
            pat.len() == plen,
            pat == closing_tag(s@.subrange(name_start as int, name_end as int)),
            1 <= name_start <= name_end <= from,
            name_end - name_start + 3 == plen,
            forall|j2: int| from <= j2 < j ==> !#[trigger] occurs_at(s@, j2, pat),
        decreases last + 1 - j,
    {
        let mut k: usize = 0;
        let mut same = true;
        while k < plen && same
            invariant
                j <= last,
                last + plen == s.len(),
                pat.len() == plen,
                pat == closing_tag(s@.subrange(name_start as int, name_end as int)),
                1 <= name_start <= name_end <= s.len(),
                name_end - name_start + 3 == plen,
                k <= plen,
                same ==> forall|k2: int| 0 <= k2 < k ==> s@[j + k2] == pat[k2],
                !same ==> exists|k2: int| 0 <= k2 < plen && s@[j + k2] != pat[k2],
            decreases plen - k + (if same { 1int } else { 0int }),
        {
            let expected = if k == 0 {
                '<'
            } else if k == 1 {
                '/'
            } else if k == plen - 1 {
                '>'
            } else {
                s[name_start + (k - 2)]
            };
            assert(expected == pat[k as int]);
            if s[j + k] != expected {
                same = false;
            } else {
                k = k + 1;
            }
        }
        if same {
            assert(s@.subrange(j as int, j + plen) =~= pat);
            assert(occurs_at(s@, j as int, pat));
            return true;
        }
        assert(!occurs_at(s@, j as int, pat)) by {
            let k2 = choose|k2: int| 0 <= k2 < plen && s@[j + k2] != pat[k2];
            if s@.subrange(j as int, j + plen) == pat {
                assert(s@.subrange(j as int, j + plen)[k2] == s@[j + k2]);
            }
        }
        j = j + 1;
    }
    assert forall|j2: int| from <= j2 implies !#[trigger] occurs_at(s@, j2, pat) by {}
    false
}

/// The position of the `>` that closes the tag opened at `start`, if a tag
/// opens there.
fn tag_close_exec(s: &Vec<char>, start: usize) -> (r: Option<usize>)
    requires
        start < s.len(),
    ensures
        r matches Some(g) ==> tag_close(s@, start as int) == Some(g as int),
        r is None ==> tag_close(s@, start as int) is None,
{
    let n = s.len();
    if s[start] != '<' {
        return None;
    }
    let mut i = start + 1;
    let mut closing = false;
    let mut expecting = true;
    loop
        invariant
            start < i <= n,
            n == s.len(),
            s@[start as int] == '<',
            scan_tag(s@, start as int, start + 1, false, true) == scan_tag(
                s@,
                start as int,
                i as int,
                closing,
                expecting,
            ),
        decreases n - i,
    {
        if i >= n {
            return None;
        }
        let c = s[i];
        if c == '>' || c == '=' || c == ' ' {
            if expecting && !closing && !closing_tag_follows(s, i, start + 1, i) {
                return None;
            }
            if c == '>' {
                return Some(i);
            }
            if closing {
                return None;
            }
            expecting = false;
        } else if c == '/' {
            if i == start + 1 {
                closing = true;
            } else if expecting {
                return None;
            }
        } else if expecting && !is_name_char_exec(c) {
            return None;
        }
        i = i + 1;
    }
}

/// The end of the span that starts at `start`, and whether it is a tag.
fn span_end_exec(s: &Vec<char>, start: usize) -> (r: (usize, bool))
    requires
        start < s.len(),
    ensures
        r.0 == span_end(s@, start as int).0,
        r.1 == span_end(s@, start as int).1,
{
    if let Some(g) = tag_close_exec(s, start) {
        proof {
            lemma_scan_tag_bounds(s@, start as int, start + 1, false, true);
        }
        return (skip_spaces_exec(s, g + 1), true);
    }
    assert(tag_close(s@, start as int) is None);
    let mut k = start + 1;
    while k < s.len()
        invariant
            start < k <= s.len(),
            tag_close(s@, start as int) is None,
            next_tag(s@, k as int) == next_tag(s@, start + 1),
        decreases s.len() - k,
    {
        let opens = s[k] == '<' && tag_close_exec(s, k).is_some();
        if opens {
            assert(next_tag(s@, k as int) == k);
            return (k, false);
        }
        assert(tag_close(s@, k as int) is None);
        k = k + 1;
    }
    (k, false)
}

/// The spans of a string, handed out one at a time from left to right.
pub struct IsolateTags<'a> {
    s: &'a str,
    chars: Vec<char>,
    i: usize,
}

impl<'a> View for IsolateTags<'a> {
    type V = Seq<(Seq<char>, bool)>;

    /// The spans not yet handed out.
    closed spec fn view(&self) -> Seq<(Seq<char>, bool)> {
        chunks_from(self.s@, self.i as int)
    }
}

impl<'a> IsolateTags<'a> {
    pub closed spec fn wf(&self) -> bool {
        self.chars@ == self.s@ && self.i <= self.chars.len()
    }

    pub fn new(s: &'a str) -> (r: Self)
        ensures
            r.wf(),
            r@ == chunks(s@),
    {
        IsolateTags { s, chars: chars_of(s), i: 0 }
    }

    /// The next span, as a slice of the input and whether it is a tag.
    pub fn next(&mut self) -> (r: Option<(&'a str, bool)>)
        requires
            old(self).wf(),
        ensures
            final(self).wf(),
            old(self)@.len() == 0 ==> r is None && final(self)@ == old(self)@,
            old(self)@.len() > 0 ==> r is Some && (r->0).0@ == old(self)@[0].0 && (r->0).1 == old(
                self,
            )@[0].1 && final(self)@ == old(self)@.drop_first(),
    {
        if self.i >= self.chars.len() {
            return None;
        }
        let start = self.i;
        let (end, is_tag) = span_end_exec(&self.chars, start);
        proof {
            lemma_span_end_bounds(self.s@, start as int);
            assert(old(self)@.drop_first() =~= chunks_from(self.s@, end as int));
        }
        self.i = end;
        Some((self.s.substring_char(start, end), is_tag))
    }
}

/// One span of a string, with its own copy of the text.
pub struct IsolateTagsSection {
    pub chunk: String,
    pub is_tag: bool,
}

/// What a list of sections holds, as texts and tag marks.
pub open spec fn sections_view(v: Seq<IsolateTagsSection>) -> Seq<(Seq<char>, bool)> {
    v.map_values(|x: IsolateTagsSection| (x.chunk@, x.is_tag))
}

/// The spans of `s`, in order, each with its own copy of the text.
pub fn isolate_tags_owned(s: &str) -> (r: Vec<IsolateTagsSection>)
    ensures
        sections_view(r@) == chunks(s@),
        join(sections_view(r@)) == s@,
{
    let mut it = IsolateTags::new(s);
    let mut r: Vec<IsolateTagsSection> = Vec::new();
    loop
        invariant
            it.wf(),
            sections_view(r@) + it@ == chunks(s@),
        ensures
            sections_view(r@) == chunks(s@),
        decreases it@.len(),
    {
        let ghost before = r@;
        let ghost rest = it@;
        match it.next() {
            Some((chunk, is_tag)) => {
                r.push(IsolateTagsSection { chunk: chunk.to_owned(), is_tag });
                proof {
                    assert(sections_view(r@) =~= sections_view(before).push(rest[0]));
                    assert(sections_view(before) + rest =~= sections_view(before).push(rest[0])
                        + rest.drop_first());
                }
            },
            None => {
                assert(sections_view(r@) + it@ =~= sections_view(r@));
                break;
            },
        }
    }
    proof {
        law_spans_rebuild_text(s@);
    }
    r
}

} // verus!
