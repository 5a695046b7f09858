//! Where the words of a query stand in a line, without regard to case.

use crate::pattern::{is_at, occurs_at};
use crate::text::{from_chars, lemma_texts_push, owned, texts, to_chars, words, words_of};
use crate::pieces::{lemma_kept_places, rises};
use vstd::prelude::*;
use vstd::string::*;

verus! {

/// What `str::to_lowercase` makes of a text: each character mapped by the tables
/// of Unicode.
pub uninterp spec fn lowercase(s: Seq<char>) -> Seq<char>;

/// `str::to_lowercase` depends on the characters of the text alone.
pub assume_specification[ str::to_lowercase ](s: &str) -> (r: String)
    ensures
        r@ == lowercase(s@),
;

/// A stretch of a line, and whether the query matches it.
#[derive(Debug, Clone, PartialEq, Eq)]
pub struct TextSpan {
    pub text: String,
    pub highlighted: bool,
}

/// Spans by their texts.
pub open spec fn span_views(v: Seq<TextSpan>) -> Seq<(Seq<char>, bool)> {
    v.map_values(|s: TextSpan| (s.text@, s.highlighted))
}

/// The words of a query in lower case, without those that come out empty.
pub open spec fn query_tokens(query: Seq<char>) -> Seq<Seq<char>> {
    words_of(query).map_values(|w: Seq<char>| lowercase(w)).filter(|w: Seq<char>| w.len() > 0)
}

// ---------------------------------------------------------------------------
// The lower-case form of a line, and the places of its characters in it
// ---------------------------------------------------------------------------

/// The lower-case form of a character by itself. It may have several characters.
pub open spec fn lower_char(c: char) -> Seq<char> {
    lowercase(seq![c])
}

/// How long the lower-case form of each character is.
pub open spec fn lower_widths(text: Seq<char>) -> Seq<int> {
    text.map_values(|c: char| lower_char(c).len() as int)
}

/// Where the place of character `i` begins: after those of the characters before it.
pub open spec fn place(widths: Seq<int>, i: int) -> int
    decreases i,
{
    if i <= 0 {
        0
    } else {
        place(widths, i - 1) + widths[i - 1]
    }
}

/// The lower-case forms of the characters, one after the other.
pub open spec fn spelled(text: Seq<char>) -> Seq<char>
    decreases text.len(),
{
    if text.len() == 0 {
        seq![]
    } else {
        spelled(text.drop_last()) + lower_char(text.last())
    }
}

/// The lower-case form of a line in which every character has its place. That is the
/// lower-case form of the line as a whole, in which a letter may depend on those around
/// it, if it is as long as the forms of the characters together.
pub open spec fn line_form(text: Seq<char>) -> Seq<char> {
    if lowercase(text).len() == place(lower_widths(text), text.len() as int) {
        lowercase(text)
    } else {
        spelled(text)
    }
}

/// Numbers as mathematical integers.
pub open spec fn ints(v: Seq<usize>) -> Seq<int> {
    v.map_values(|n: usize| n as int)
}

proof fn lemma_place_of_prefix(a: Seq<int>, b: Seq<int>, i: int)
    requires
        0 <= i <= a.len(),
        i <= b.len(),
        forall|k: int| 0 <= k < i ==> a[k] == b[k],
    ensures
        place(a, i) == place(b, i),
    decreases i,
{
    if i > 0 {
        lemma_place_of_prefix(a, b, i - 1);
    }
}

proof fn lemma_spelled_length(text: Seq<char>)
    ensures
        spelled(text).len() == place(lower_widths(text), text.len() as int),
    decreases text.len(),
{
    if text.len() > 0 {
        let before = text.drop_last();
        lemma_spelled_length(before);
        lemma_place_of_prefix(lower_widths(text), lower_widths(before), before.len() as int);
    }
}

proof fn lemma_place_grows(widths: Seq<int>, i: int, j: int)
    requires
        0 <= i <= j <= widths.len(),
        forall|k: int| 0 <= k < widths.len() ==> 0 <= #[trigger] widths[k],
    ensures
        place(widths, i) <= place(widths, j),
    decreases j,
{
    if i < j {
        lemma_place_grows(widths, i, j - 1);
    }
}

/// The lower-case form of a line, and how much of it each character of the line takes.
fn lower_form(text: &str) -> (r: (Vec<char>, Vec<usize>))
    ensures
        r.0@ == line_form(text@),
        ints(r.1@) == lower_widths(text@),
        r.0@.len() == place(ints(r.1@), r.1@.len() as int),
{
    let v: Vec<char> = to_chars(text);
    let n: usize = v.len();
    let mut letters: Vec<char> = Vec::new();
    let mut widths: Vec<usize> = Vec::new();
    let mut i: usize = 0;
    assert(v@.take(0) =~= seq![]);
    while i < n
        invariant
            v@ == text@,
            n == v@.len(),
            i <= n,
            widths@.len() == i,
            forall|k: int| 0 <= k < i ==> #[trigger] widths@[k] == lower_char(v@[k]).len(),
            letters@ == spelled(v@.take(i as int)),
        decreases n - i,
    {
        let mut one: String = String::new();
        one.push(v[i]);
        assert(one@ =~= seq![v@[i as int]]);
        let mut form: Vec<char> = to_chars(one.as_str().to_lowercase().as_str());
        widths.push(form.len());
        proof {
            assert(v@.take(i + 1).drop_last() =~= v@.take(i as int));
            assert(v@.take(i + 1).last() == v@[i as int]);
        }
        letters.append(&mut form);
        i += 1;
    }
    let whole: Vec<char> = to_chars(text.to_lowercase().as_str());
    proof {
        assert(v@.take(n as int) =~= v@);
        assert(ints(widths@) =~= lower_widths(text@));
        lemma_spelled_length(text@);
    }
    if whole.len() == letters.len() {
        (whole, widths)
    } else {
        (letters, widths)
    }
}

// ---------------------------------------------------------------------------
// Marks
// ---------------------------------------------------------------------------

/// Whether position `p` lies in an occurrence of one of the tokens.
pub open spec fn in_occurrence(form: Seq<char>, tokens: Seq<Seq<char>>, p: int) -> bool {
    exists|t: int, j: int|
        0 <= t < tokens.len() && #[trigger] occurs_at(form, tokens[t], j) && j <= p < j
            + tokens[t].len()
}

/// Whether some of the form of character `i` lies in an occurrence of one of the tokens.
pub open spec fn is_marked(
    form: Seq<char>,
    widths: Seq<int>,
    tokens: Seq<Seq<char>>,
    i: int,
) -> bool {
    exists|p: int|
        place(widths, i) <= p < place(widths, i + 1) && #[trigger] in_occurrence(form, tokens, p)
}

/// Of each character, whether some of its form lies in an occurrence of one of the
/// tokens.
pub open spec fn marks_of(form: Seq<char>, widths: Seq<int>, tokens: Seq<Seq<char>>) -> Seq<bool> {
    Seq::new(widths.len(), |i: int| is_marked(form, widths, tokens, i))
}

/// Of each character of a line, whether its lower-case form lies in an occurrence of a
/// word of the query.
pub open spec fn line_marks(text: Seq<char>, query: Seq<char>) -> Seq<bool> {
    marks_of(line_form(text), lower_widths(text), query_tokens(query))
}

/// Whether position `p` lies in an occurrence of a token.
fn lies_in(form: &Vec<char>, token: &Vec<char>, p: usize) -> (r: bool)
    requires
        p < form@.len(),
    ensures
        r == exists|j: int| #[trigger]
            occurs_at(form@, token@, j) && j <= p < j + token@.len(),
{
    let n: usize = form.len();
    let m: usize = token.len();
    let lo: usize = if p < m {
        0
    } else {
        p - m + 1
    };
    let mut j: usize = lo;
    while j <= p
        invariant
            m == token@.len(),
            p < n == form@.len(),
            p < m ==> lo == 0,
            p >= m ==> lo == p - m + 1,
            lo <= j <= p + 1,
            forall|k: int| lo <= k < j ==> !(#[trigger] occurs_at(form@, token@, k) && p < k + m),
        decreases p + 1 - j,
    {
        if p - j < m && is_at(form, token, j) {
            return true;
        }
        j += 1;
    }
    false
}

/// Of each position, whether it lies in an occurrence of one of the tokens.
fn covered(form: &Vec<char>, tokens: &Vec<String>) -> (r: Vec<bool>)
    ensures
        r@.len() == form@.len(),
        forall|p: int|
            0 <= p < form@.len() ==> #[trigger] r@[p] == in_occurrence(form@, texts(tokens@), p),
{
    let ghost toks = texts(tokens@);
    let n: usize = form.len();
    let mut out: Vec<bool> = Vec::new();
    let mut i: usize = 0;
    while i < n
        invariant
            n == form@.len(),
            i <= n,
            out@.len() == i,
            forall|p: int| 0 <= p < i ==> #[trigger] out@[p] == false,
        decreases n - i,
    {
        out.push(false);
        i += 1;
    }
    let mut t: usize = 0;
    while t < tokens.len()
        invariant
            n == form@.len(),
            out@.len() == n,
            toks == texts(tokens@),
            t <= tokens@.len(),
            forall|p: int|
                0 <= p < n ==> #[trigger] out@[p] == in_occurrence(
                    form@,
                    toks.take(t as int),
                    p,
                ),
        decreases tokens@.len() - t,
    {
        let token: Vec<char> = to_chars(tokens[t].as_str());
        assert(token@ == toks[t as int]);
        let ghost before = out@;
        let mut p: usize = 0;
        while p < n
            invariant
                n == form@.len(),
                out@.len() == n,
                before.len() == n,
                p <= n,
                forall|q: int|
                    0 <= q < p ==> #[trigger] out@[q] == (before[q] || exists|j: int| #[trigger]
                        occurs_at(form@, token@, j) && j <= q < j + token@.len()),
                forall|q: int| p <= q < n ==> #[trigger] out@[q] == before[q],
            decreases n - p,
        {
            if !out[p] && lies_in(form, &token, p) {
                out.set(p, true);
            }
            p += 1;
        }
        proof {
            assert forall|q: int| 0 <= q < n implies #[trigger] out@[q] == in_occurrence(
                form@,
                toks.take(t + 1),
                q,
            ) by {
                lemma_one_more_token(form@, toks, t as int, q);
                assert(before[q] == in_occurrence(form@, toks.take(t as int), q));
            }
        }
        t += 1;
    }
    assert(toks.take(t as int) =~= toks);
    out
}

proof fn lemma_one_more_token(form: Seq<char>, tokens: Seq<Seq<char>>, t: int, p: int)
    requires
        0 <= t < tokens.len(),
    ensures
        in_occurrence(form, tokens.take(t + 1), p) == (in_occurrence(form, tokens.take(t), p)
            || exists|j: int| #[trigger]
            occurs_at(form, tokens[t], j) && j <= p < j + tokens[t].len()),
{
    let more = tokens.take(t + 1);
    let less = tokens.take(t);
    if in_occurrence(form, more, p) {
        let (k, j) = choose|k: int, j: int|
            0 <= k < more.len() && #[trigger] occurs_at(form, more[k], j) && j <= p < j
                + more[k].len();
        if k < t {
            assert(less[k] == more[k]);
            assert(occurs_at(form, less[k], j));
        } else {
            assert(occurs_at(form, tokens[t], j));
        }
    }
    if in_occurrence(form, less, p) {
        let (k, j) = choose|k: int, j: int|
            0 <= k < less.len() && #[trigger] occurs_at(form, less[k], j) && j <= p < j
                + less[k].len();
        assert(more[k] == less[k]);
        assert(occurs_at(form, more[k], j));
    }
    if exists|j: int| #[trigger]
        occurs_at(form, tokens[t], j) && j <= p < j + tokens[t].len() {
        let j = choose|j: int| #[trigger]
            occurs_at(form, tokens[t], j) && j <= p < j + tokens[t].len();
        assert(more[t] == tokens[t]);
        assert(occurs_at(form, more[t], j));
    }
}

/// Of each character of a line, whether some of its form lies in an occurrence of one of
/// the tokens, where the form of the line is known and how much of it each character
/// takes.
pub fn mark_characters(form: &Vec<char>, widths: &Vec<usize>, tokens: &Vec<String>) -> (r: Vec<
    bool,
>)
    requires
        form@.len() == place(ints(widths@), widths@.len() as int),
    ensures
        r@ == marks_of(form@, ints(widths@), texts(tokens@)),
{
    let ghost ws = ints(widths@);
    let ghost toks = texts(tokens@);
    let cover: Vec<bool> = covered(form, tokens);
    let n: usize = form.len();
    let m: usize = widths.len();
    let mut out: Vec<bool> = Vec::new();
    let mut start: usize = 0;
    let mut i: usize = 0;
    while i < m
        invariant
            ws == ints(widths@),
            toks == texts(tokens@),
            n == form@.len(),
            m == widths@.len(),
            n == place(ws, m as int),
            cover@.len() == n,
            forall|p: int| 0 <= p < n ==> #[trigger] cover@[p] == in_occurrence(form@, toks, p),
            i <= m,
            start == place(ws, i as int),
            start <= n,
            out@.len() == i,
            forall|k: int| 0 <= k < i ==> #[trigger] out@[k] == is_marked(form@, ws, toks, k),
        decreases m - i,
    {
        proof {
            lemma_place_grows(ws, i + 1, m as int);
            assert(place(ws, i + 1) == start + widths@[i as int]);
        }
        let end: usize = start + widths[i];
        let mut marked: bool = false;
        let mut p: usize = start;
        while p < end
            invariant
                n == form@.len(),
                end <= n,
                start <= p <= end,
                cover@.len() == n,
                forall|q: int| 0 <= q < n ==> #[trigger] cover@[q] == in_occurrence(form@, toks, q),
                marked == exists|q: int|
                    start <= q < p && #[trigger] in_occurrence(form@, toks, q),
            decreases end - p,
        {
            if cover[p] {
                assert(in_occurrence(form@, toks, p as int));
                marked = true;
            } else {
                assert(!in_occurrence(form@, toks, p as int));
            }
            p += 1;
        }
        assert(marked == is_marked(form@, ws, toks, i as int));
        out.push(marked);
        start = end;
        i += 1;
    }
    assert(out@ =~= marks_of(form@, ws, toks));
    out
}

// ---------------------------------------------------------------------------
// Spans
// ---------------------------------------------------------------------------

/// The first position from `i` on with the mark `b`, or the length.
pub open spec fn next_mark(marks: Seq<bool>, b: bool, i: int) -> int
    decreases marks.len() - i,
{
    if i >= marks.len() {
        marks.len() as int
    } else if marks[i] == b {
        i
    } else {
        next_mark(marks, b, i + 1)
    }
}

/// The line from character `i` on, cut wherever the marks change.
pub open spec fn spans_from(text: Seq<char>, marks: Seq<bool>, i: int) -> Seq<(Seq<char>, bool)>
    decreases marks.len() - i,
{
    let j = next_mark(marks, !marks[i], i);
    if 0 <= i < j <= marks.len() {
        seq![(text.subrange(i, j), marks[i])] + spans_from(text, marks, j)
    } else {
        seq![]
    }
}

/// The line, cut wherever the marks change; an empty line is one span.
pub open spec fn spans_of(text: Seq<char>, marks: Seq<bool>) -> Seq<(Seq<char>, bool)> {
    if text.len() == 0 {
        seq![(text, false)]
    } else {
        spans_from(text, marks, 0)
    }
}

proof fn lemma_next_mark(marks: Seq<bool>, b: bool, i: int)
    requires
        0 <= i <= marks.len(),
    ensures
        i <= next_mark(marks, b, i) <= marks.len(),
    decreases marks.len() - i,
{
    if i < marks.len() && marks[i] != b {
        lemma_next_mark(marks, b, i + 1);
    }
}

/// A line whose characters are marked or not, cut wherever the marks change.
pub fn cut_spans(text: &str, marks: &Vec<bool>) -> (r: Vec<TextSpan>)
    requires
        marks@.len() == text@.len(),
    ensures
        span_views(r@) == spans_of(text@, marks@),
{
    let v: Vec<char> = to_chars(text);
    let n: usize = v.len();
    let mut out: Vec<TextSpan> = Vec::new();
    if n == 0 {
        out.push(TextSpan { text: owned(text), highlighted: false });
        assert(span_views(out@) =~= seq![(text@, false)]);
        return out;
    }
    let mut i: usize = 0;
    assert(span_views(out@) =~= seq![]);
    while i < n
        invariant
            v@ == text@,
            n == v@.len(),
            marks@.len() == n,
            i <= n,
            span_views(out@) + spans_from(text@, marks@, i as int) =~= spans_from(text@, marks@, 0),
        decreases n - i,
    {
        let mark: bool = marks[i];
        let mut j: usize = i + 1;
        while j < n && marks[j] == mark
            invariant
                n == marks@.len(),
                mark == marks@[i as int],
                i < j <= n,
                next_mark(marks@, !mark, i as int) == next_mark(marks@, !mark, j as int),
            decreases n - j,
        {
            j += 1;
        }
        let ghost before = out@;
        out.push(TextSpan { text: from_chars(&v, i, j), highlighted: mark });
        assert(span_views(out@) =~= span_views(before).push(
            (text@.subrange(i as int, j as int), mark),
        ));
        i = j;
    }
    assert(spans_from(text@, marks@, n as int) =~= seq![]);
    out
}

/// The words of a query in lower case, without those that come out empty.
pub fn tokens_of(query: &str) -> (r: Vec<String>)
    ensures
        texts(r@) == query_tokens(query@),
{
    let all: Vec<String> = words(query);
    let ghost lowered = words_of(query@).map_values(|w: Seq<char>| lowercase(w));
    let ghost pred = |w: Seq<char>| w.len() > 0;
    let mut out: Vec<String> = Vec::new();
    let mut i: usize = 0;
    proof {
        reveal(Seq::filter);
        assert(texts(out@) =~= lowered.take(0).filter(pred));
    }
    while i < all.len()
        invariant
            texts(all@) == words_of(query@),
            lowered == words_of(query@).map_values(|w: Seq<char>| lowercase(w)),
            pred == (|w: Seq<char>| w.len() > 0),
            i <= all@.len(),
            texts(out@) == lowered.take(i as int).filter(pred),
        decreases all@.len() - i,
    {
        let token: String = all[i].as_str().to_lowercase();
        proof {
            reveal(Seq::filter);
            assert(lowered.take(i + 1).drop_last() =~= lowered.take(i as int));
            assert(texts(all@)[i as int] == all@[i as int]@);
            assert(lowered.take(i + 1).last() == token@);
        }
        if !token.as_str().is_empty() {
            let ghost before = out@;
            out.push(token);
            proof {
                lemma_texts_push(before, token);
            }
        }
        i += 1;
    }
    assert(lowered.take(i as int) =~= lowered);
    out
}

/// Cuts a line at the occurrences of the words of the query, without regard to case: a
/// character is highlighted exactly where its lower-case form lies in an occurrence.
pub fn highlight_line(text: &str, query: &str) -> (r: Vec<TextSpan>)
    ensures
        span_views(r@) == spans_of(text@, line_marks(text@, query@)),
{
    let tokens: Vec<String> = tokens_of(query);
    let (form, widths): (Vec<char>, Vec<usize>) = lower_form(text);
    let marks: Vec<bool> = mark_characters(&form, &widths, &tokens);
    cut_spans(text, &marks)
}

// ---------------------------------------------------------------------------
// Laws
// ---------------------------------------------------------------------------

/// The texts of spans, one after the other.
pub open spec fn all_text(spans: Seq<(Seq<char>, bool)>) -> Seq<char>
    decreases spans.len(),
{
    if spans.len() == 0 {
        seq![]
    } else {
        spans[0].0 + all_text(spans.drop_first())
    }
}

proof fn lemma_spans_text(text: Seq<char>, marks: Seq<bool>, i: int)
    requires
        marks.len() == text.len(),
        0 <= i <= text.len(),
    ensures
        all_text(spans_from(text, marks, i)) == text.skip(i),
    decreases text.len() - i,
{
    if i < text.len() {
        lemma_next_mark(marks, !marks[i], i + 1);
        let j = next_mark(marks, !marks[i], i);
        lemma_spans_text(text, marks, j);
        let all = spans_from(text, marks, i);
        assert(all.drop_first() =~= spans_from(text, marks, j));
        assert(text.subrange(i, j) + text.skip(j) =~= text.skip(i));
    } else {
        lemma_next_mark(marks, !marks[i], i);
        assert(text.skip(i) =~= seq![]);
    }
}

/// The spans of a line together are the line.
pub proof fn law_spans_are_the_line(text: Seq<char>, query: Seq<char>)
    ensures
        all_text(spans_of(text, line_marks(text, query))) == text,
{
    let marks = line_marks(text, query);
    if text.len() == 0 {
        reveal_with_fuel(all_text, 2);
        assert(spans_of(text, marks).drop_first() =~= seq![]);
        assert(text + Seq::<char>::empty() =~= text);
    } else {
        lemma_spans_text(text, marks, 0);
        assert(text.skip(0) =~= text);
    }
}

proof fn lemma_place_holds(widths: Seq<int>, n: int, p: int) -> (i: int)
    requires
        0 <= n <= widths.len(),
        0 <= p < place(widths, n),
    ensures
        0 <= i < n,
        place(widths, i) <= p < place(widths, i + 1),
    decreases n,
{
    if p >= place(widths, n - 1) {
        n - 1
    } else {
        lemma_place_holds(widths, n - 1, p)
    }
}

/// Every occurrence of a word of the query is highlighted whole: whatever position of it
/// is looked at, the character of the line that has its place there is highlighted.
pub proof fn law_every_occurrence_is_highlighted(
    text: Seq<char>,
    query: Seq<char>,
    t: int,
    j: int,
    p: int,
)
    requires
        0 <= t < query_tokens(query).len(),
        occurs_at(line_form(text), query_tokens(query)[t], j),
        j <= p < j + query_tokens(query)[t].len(),
    ensures
        exists|i: int|
            0 <= i < text.len() && place(lower_widths(text), i) <= p < place(
                lower_widths(text),
                i + 1,
            ) && #[trigger] line_marks(text, query)[i],
{
    lemma_spelled_length(text);
    let ws = lower_widths(text);
    let i = lemma_place_holds(ws, text.len() as int, p);
    assert(in_occurrence(line_form(text), query_tokens(query), p));
    assert(is_marked(line_form(text), ws, query_tokens(query), i));
    assert(line_marks(text, query)[i]);
}

/// Nothing is highlighted but characters whose lower-case form lies in an occurrence of a
/// word of the query.
pub proof fn law_only_occurrences_are_highlighted(text: Seq<char>, query: Seq<char>, i: int)
    requires
        0 <= i < text.len(),
        line_marks(text, query)[i],
    ensures
        exists|p: int|
            place(lower_widths(text), i) <= p < place(lower_widths(text), i + 1)
                && #[trigger] in_occurrence(line_form(text), query_tokens(query), p),
{
}

/// Where the lower-case form of each character is one character, a character is
/// highlighted exactly where its own position lies in an occurrence in the lower-case
/// form of the line.
pub proof fn law_plain_lines_are_marked_in_place(text: Seq<char>, query: Seq<char>, i: int)
    requires
        0 <= i < text.len(),
        lowercase(text).len() == text.len(),
        forall|k: int| 0 <= k < text.len() ==> lower_char(#[trigger] text[k]).len() == 1,
    ensures
        line_marks(text, query)[i] == in_occurrence(lowercase(text), query_tokens(query), i),
{
    let ws = lower_widths(text);
    assert forall|k: int| 0 <= k < ws.len() implies #[trigger] ws[k] == 1 by {
        assert(lower_char(text[k]).len() == 1);
    }
    lemma_places_of_ones(ws, text.len() as int);
    lemma_places_of_ones(ws, i);
    lemma_places_of_ones(ws, i + 1);
}

proof fn lemma_places_of_ones(widths: Seq<int>, i: int)
    requires
        0 <= i <= widths.len(),
        forall|k: int| 0 <= k < widths.len() ==> #[trigger] widths[k] == 1,
    ensures
        place(widths, i) == i,
    decreases i,
{
    if i > 0 {
        lemma_places_of_ones(widths, i - 1);
    }
}

/// The tokens of a query are its words in lower case, every one that is not empty then,
/// and in order.
pub proof fn law_query_tokens(query: Seq<char>)
    ensures
        exists|at: Seq<int>|
            {
                &&& #[trigger] rises(at)
                &&& at.len() == query_tokens(query).len()
                &&& forall|k: int|
                    0 <= k < at.len() ==> 0 <= #[trigger] at[k] < words_of(query).len()
                        && query_tokens(query)[k] == lowercase(words_of(query)[at[k]])
                        && query_tokens(query)[k].len() > 0
                &&& forall|w: int|
                    0 <= w < words_of(query).len() && lowercase(#[trigger] words_of(query)[w]).len() > 0
                        ==> at.contains(w)
            },
{
    let ws = words_of(query);
    let lowered = ws.map_values(|w: Seq<char>| lowercase(w));
    let at = lemma_kept_places(lowered, |w: Seq<char>| w.len() > 0);
    let keep = |i: int| lowered[i].len() > 0;
    assert forall|k: int| 0 <= k < at.len() implies 0 <= #[trigger] at[k] < ws.len()
        && query_tokens(query)[k] == lowercase(ws[at[k]]) && query_tokens(query)[k].len() > 0 by {
        assert(lowered[at[k]] == lowercase(ws[at[k]]));
    }
    assert forall|w: int| 0 <= w < ws.len() && lowercase(#[trigger] ws[w]).len() > 0 implies at.contains(
        w,
    ) by {
        assert(lowered[w].len() > 0);
    }
    assert(rises(at));
}

/// Of each character of spans, one after the other, whether it is highlighted.
pub open spec fn all_flags(spans: Seq<(Seq<char>, bool)>) -> Seq<bool>
    decreases spans.len(),
{
    if spans.len() == 0 {
        seq![]
    } else {
        Seq::new(spans[0].0.len(), |i: int| spans[0].1) + all_flags(spans.drop_first())
    }
}

proof fn lemma_next_mark_is(marks: Seq<bool>, b: bool, i: int)
    requires
        0 <= i <= marks.len(),
    ensures
        i <= next_mark(marks, b, i) <= marks.len(),
        forall|m: int| i <= m < next_mark(marks, b, i) ==> #[trigger] marks[m] == !b,
        next_mark(marks, b, i) < marks.len() ==> marks[next_mark(marks, b, i)] == b,
    decreases marks.len() - i,
{
    if i < marks.len() && marks[i] != b {
        lemma_next_mark_is(marks, b, i + 1);
    }
}

proof fn lemma_span_flags(text: Seq<char>, marks: Seq<bool>, i: int)
    requires
        marks.len() == text.len(),
        0 <= i <= text.len(),
    ensures
        all_flags(spans_from(text, marks, i)) == marks.skip(i),
        forall|k: int|
            0 <= k < spans_from(text, marks, i).len() ==> (#[trigger] spans_from(
                text,
                marks,
                i,
            )[k]).0.len() > 0,
        forall|k: int|
            0 < k < spans_from(text, marks, i).len() ==> (#[trigger] spans_from(text, marks, i)[k]).1
                != spans_from(text, marks, i)[k - 1].1,
        i < text.len() ==> spans_from(text, marks, i).len() > 0 && spans_from(text, marks, i)[0].1
            == marks[i],
    decreases text.len() - i,
{
    if i < text.len() {
        lemma_next_mark_is(marks, !marks[i], i);
        let j = next_mark(marks, !marks[i], i);
        assert(marks[i] != !marks[i]);
        assert(i < j);
        lemma_span_flags(text, marks, j);
        let rest = spans_from(text, marks, j);
        let all = spans_from(text, marks, i);
        assert(all.drop_first() =~= rest);
        assert(all[0] == (text.subrange(i, j), marks[i]));
        assert(Seq::new(all[0].0.len(), |m: int| all[0].1) =~= marks.subrange(i, j)) by {
            assert forall|m: int| 0 <= m < j - i implies marks[i] == marks.subrange(i, j)[m] by {
                assert(marks[i + m] == marks[i]);
            }
        }
        assert(marks.subrange(i, j) + marks.skip(j) =~= marks.skip(i));
        assert forall|k: int| 0 <= k < all.len() implies (#[trigger] all[k]).0.len() > 0 by {
            if k > 0 {
                assert(all[k] == rest[k - 1]);
            }
        }
        assert forall|k: int| 0 < k < all.len() implies (#[trigger] all[k]).1 != all[k - 1].1 by {
            if k == 1 {
                assert(all[1] == rest[0]);
            } else {
                assert(all[k] == rest[k - 1]);
                assert(all[k - 1] == rest[k - 2]);
            }
        }
    } else {
        lemma_next_mark(marks, !marks[i], i);
        assert(spans_from(text, marks, i) =~= seq![]);
        assert(all_flags(spans_from(text, marks, i)) =~= marks.skip(i));
    }
}

/// In the spans of a line exactly the characters are highlighted that are marked, no span is
/// empty, and two that stand side by side differ.
pub proof fn law_spans_show_the_marks(text: Seq<char>, query: Seq<char>)
    requires
        text.len() > 0,
    ensures
        all_flags(spans_of(text, line_marks(text, query))) == line_marks(text, query),
        line_marks(text, query).len() == text.len(),
        forall|k: int|
            0 <= k < spans_of(text, line_marks(text, query)).len() ==> (#[trigger] spans_of(
                text,
                line_marks(text, query),
            )[k]).0.len() > 0,
        forall|k: int|
            0 < k < spans_of(text, line_marks(text, query)).len() ==> (#[trigger] spans_of(
                text,
                line_marks(text, query),
            )[k]).1 != spans_of(text, line_marks(text, query))[k - 1].1,
{
    let marks = line_marks(text, query);
    lemma_span_flags(text, marks, 0);
    assert(marks.skip(0) =~= marks);
}

/// Without words in the query nothing is highlighted.
pub proof fn law_blank_query_highlights_nothing(text: Seq<char>, query: Seq<char>, i: int)
    requires
        0 <= i < text.len(),
        words_of(query).len() == 0,
    ensures
        !line_marks(text, query)[i],
{
    law_query_tokens(query);
    assert(query_tokens(query).len() == 0);
}

/// The forms of the characters of two texts, one after the other, are those of the first
/// and then those of the second; and the place of a character begins where the forms of
/// those before it end.
pub proof fn law_places(a: Seq<char>, c: char, b: Seq<char>)
    ensures
        spelled(a + b) == spelled(a) + spelled(b),
        spelled(seq![c]) == lowercase(seq![c]),
        place(lower_widths(a + b), a.len() as int) == spelled(a).len(),
    decreases b.len(),
{
    assert(seq![c].drop_last() =~= seq![]);
    reveal_with_fuel(spelled, 2);
    assert(spelled(seq![c]) =~= lowercase(seq![c]));
    lemma_spelled_length(a);
    lemma_place_of_prefix(lower_widths(a + b), lower_widths(a), a.len() as int);
    if b.len() == 0 {
        assert(a + b =~= a);
        assert(spelled(a) + spelled(b) =~= spelled(a));
    } else {
        law_places(a, c, b.drop_last());
        assert((a + b).drop_last() =~= a + b.drop_last());
        assert((a + b).last() == b.last());
        assert(spelled(a + b) =~= spelled(a) + spelled(b));
    }
}

} // verus!
