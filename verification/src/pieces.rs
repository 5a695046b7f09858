//! Texts taken apart at a separator and put together again.

use crate::text::{
    in_class, is_space, joined, lemma_next_in, lemma_run_end, lemma_texts_push, lines_from,
    lines_of, next_in, run_end, split, split_from, split_on, texts, words_from, words_of, CharClass,
};
use vstd::prelude::*;
use vstd::string::*;

verus! {

/// The pieces that are not empty.
pub open spec fn nonempty(pieces: Seq<Seq<char>>) -> Seq<Seq<char>> {
    pieces.filter(|p: Seq<char>| p.len() > 0)
}

/// The pieces between the occurrences of `sep` that are not empty.
pub open spec fn parted(s: Seq<char>, sep: char) -> Seq<Seq<char>> {
    nonempty(split(s, sep))
}

/// Whether each text can stand as a piece between separators.
pub open spec fn are_pieces(v: Seq<Seq<char>>, sep: char) -> bool {
    forall|i: int| 0 <= i < v.len() ==> (#[trigger] v[i]).len() > 0 && !v[i].contains(sep)
}

/// The pieces between the occurrences of `sep` that are not empty.
pub fn parts_on(s: &str, sep: char) -> (r: Vec<String>)
    ensures
        texts(r@) == parted(s@, sep),
{
    let pieces: Vec<String> = split_on(s, sep);
    let ghost all = texts(pieces@);
    let mut out: Vec<String> = Vec::new();
    let mut i: usize = 0;
    assert(texts(out@) =~= nonempty(all.take(0)));
    while i < pieces.len()
        invariant
            all == texts(pieces@),
            i <= pieces@.len(),
            texts(out@) == nonempty(all.take(i as int)),
        decreases pieces@.len() - i,
    {
        assert(all.take(i + 1).drop_last() =~= all.take(i as int));
        assert(all.take(i + 1).last() == pieces@[i as int]@);
        proof {
            reveal(Seq::filter);
        }
        if !pieces[i].as_str().is_empty() {
            let ghost before = out@;
            let part: String = pieces[i].clone();
            out.push(part);
            proof {
                lemma_texts_push(before, part);
            }
        }
        i += 1;
    }
    assert(all.take(i as int) =~= all);
    out
}

/// A text has at least one piece.
pub proof fn lemma_split_nonempty(s: Seq<char>, sep: char, i: int)
    requires
        0 <= i <= s.len(),
    ensures
        split_from(s, sep, i).len() > 0,
{
}

proof fn lemma_next_in_append(a: Seq<char>, t: Seq<char>, k: CharClass, i: int)
    requires
        0 <= i <= a.len(),
    ensures
        next_in(a, k, i) < a.len() ==> next_in(a + t, k, i) == next_in(a, k, i),
        next_in(a, k, i) >= a.len() ==> next_in(a + t, k, i) == next_in(a + t, k, a.len() as int),
    decreases a.len() - i,
{
    if i < a.len() {
        assert((a + t)[i] == a[i]);
        lemma_next_in_append(a, t, k, i + 1);
    }
}

pub(crate) proof fn lemma_next_in_shift(a: Seq<char>, t: Seq<char>, k: CharClass, i: int)
    requires
        0 <= i <= t.len(),
    ensures
        next_in(a + t, k, a.len() + i) == a.len() + next_in(t, k, i),
    decreases t.len() - i,
{
    if i < t.len() {
        assert((a + t)[a.len() + i] == t[i]);
        lemma_next_in_shift(a, t, k, i + 1);
    }
}

proof fn lemma_split_shift(a: Seq<char>, t: Seq<char>, sep: char, i: int)
    requires
        0 <= i <= t.len(),
    ensures
        split_from(a + t, sep, a.len() + i) == split_from(t, sep, i),
    decreases t.len() - i,
{
    let k = CharClass::Just(sep);
    let s = a + t;
    lemma_next_in_shift(a, t, k, i);
    lemma_next_in(t, k, i);
    let j = next_in(t, k, i);
    assert(s.subrange(a.len() + i, a.len() + j) =~= t.subrange(i, j));
    if j < t.len() {
        lemma_split_shift(a, t, sep, j + 1);
    }
}

/// The pieces of two texts with a separator between them are those of both.
pub proof fn lemma_split_concat(a: Seq<char>, b: Seq<char>, sep: char, i: int)
    requires
        0 <= i <= a.len(),
    ensures
        split_from(a + seq![sep] + b, sep, i) == split_from(a, sep, i) + split(b, sep),
    decreases a.len() - i,
{
    let k = CharClass::Just(sep);
    let t = seq![sep] + b;
    let s = a + seq![sep] + b;
    assert(s =~= a + t);
    lemma_next_in(a, k, i);
    lemma_next_in_append(a, t, k, i);
    let j = next_in(a, k, i);
    if j < a.len() {
        assert(s.subrange(i, j) =~= a.subrange(i, j));
        lemma_split_concat(a, b, sep, j + 1);
        assert(split_from(s, sep, i) =~= split_from(a, sep, i) + split(b, sep));
    } else {
        assert(s[a.len() as int] == sep);
        assert(next_in(s, k, a.len() as int) == a.len());
        assert(s.subrange(i, a.len() as int) =~= a.subrange(i, a.len() as int));
        assert(s =~= (a + seq![sep]) + b);
        lemma_split_shift(a + seq![sep], b, sep, 0);
        assert(split_from(s, sep, i) =~= split_from(a, sep, i) + split(b, sep));
    }
}

/// No piece of a split text holds the separator.
pub proof fn lemma_split_pieces(s: Seq<char>, sep: char, i: int)
    requires
        0 <= i <= s.len(),
    ensures
        forall|m: int|
            0 <= m < split_from(s, sep, i).len() ==> !(#[trigger] split_from(s, sep, i)[m]).contains(
                sep,
            ),
    decreases s.len() - i,
{
    let k = CharClass::Just(sep);
    lemma_next_in(s, k, i);
    let j = next_in(s, k, i);
    let first = s.subrange(i, j);
    assert(!first.contains(sep)) by {
        if first.contains(sep) {
            let x = choose|x: int| 0 <= x < first.len() && first[x] == sep;
            assert(in_class(k, s[i + x]));
        }
    }
    if j < s.len() {
        lemma_split_pieces(s, sep, j + 1);
        let rest = split_from(s, sep, j + 1);
        assert forall|m: int| 0 <= m < split_from(s, sep, i).len() implies !(
            #[trigger] split_from(s, sep, i)[m]).contains(sep) by {
            if m > 0 {
                assert(split_from(s, sep, i)[m] == rest[m - 1]);
            }
        }
    }
}

/// A text without the separator is one piece.
pub proof fn lemma_split_single(s: Seq<char>, sep: char)
    requires
        !s.contains(sep),
    ensures
        split(s, sep) == seq![s],
{
    let k = CharClass::Just(sep);
    lemma_next_in(s, k, 0);
    let j = next_in(s, k, 0);
    if j < s.len() {
        assert(s.contains(s[j]));
    }
    assert(s.subrange(0, s.len() as int) =~= s);
}

/// The pieces of two texts with the separator between them are those of both.
pub proof fn lemma_parted_concat(a: Seq<char>, b: Seq<char>, sep: char)
    ensures
        parted(a + seq![sep] + b, sep) == parted(a, sep) + parted(b, sep),
{
    lemma_split_concat(a, b, sep, 0);
    Seq::filter_distributes_over_add(split(a, sep), split(b, sep), |p: Seq<char>| p.len() > 0);
}

/// What a text is taken apart into can stand between separators.
pub proof fn lemma_parted_pieces(s: Seq<char>, sep: char)
    ensures
        are_pieces(parted(s, sep), sep),
{
    let f = |p: Seq<char>| p.len() > 0;
    let all = split(s, sep);
    lemma_split_pieces(s, sep, 0);
    assert forall|i: int| 0 <= i < parted(s, sep).len() implies (#[trigger] parted(s, sep)[i]).len()
        > 0 && !parted(s, sep)[i].contains(sep) by {
        let p = parted(s, sep)[i];
        all.lemma_filter_pred(f, i);
        assert(all.filter(f).contains(p));
        all.lemma_filter_contains_rev(f, p);
        let m = choose|m: int| 0 <= m < all.len() && all[m] == p;
        assert(!split_from(s, sep, 0)[m].contains(sep));
    }
}

/// A text without the separator is its own one piece.
pub proof fn lemma_parted_one(p: Seq<char>, sep: char)
    requires
        !p.contains(sep),
    ensures
        parted(p, sep) == (if p.len() > 0 {
            seq![p]
        } else {
            seq![]
        }),
{
    lemma_split_single(p, sep);
    reveal_with_fuel(Seq::filter, 2);
    assert(seq![p].drop_last() =~= seq![]);
    assert(seq![p].last() == p);
}

/// Pieces put together with the separator are what the text is taken apart into.
pub proof fn lemma_parted_joined(v: Seq<Seq<char>>, sep: char)
    requires
        are_pieces(v, sep),
    ensures
        parted(joined(v, seq![sep]), sep) == v,
    decreases v.len(),
{
    if v.len() == 0 {
        lemma_parted_one(seq![], sep);
        assert(v =~= seq![]);
    } else if v.len() == 1 {
        lemma_parted_one(v[0], sep);
        assert(v =~= seq![v[0]]);
    } else {
        let init = v.drop_last();
        assert(are_pieces(init, sep)) by {
            assert forall|i: int| 0 <= i < init.len() implies (#[trigger] init[i]).len() > 0
                && !init[i].contains(sep) by {
                assert(init[i] == v[i]);
            }
        }
        lemma_parted_joined(init, sep);
        let last = v.last();
        assert(last == v[v.len() - 1]);
        lemma_parted_concat(joined(init, seq![sep]), last, sep);
        lemma_parted_one(last, sep);
        assert(v =~= init + seq![last]);
    }
}

// ---------------------------------------------------------------------------
// Laws
// ---------------------------------------------------------------------------

/// Nothing joined is nothing, one piece joined is that piece, and two lists joined are one
/// after the other with the separator between them.
pub proof fn law_joined(a: Seq<Seq<char>>, b: Seq<Seq<char>>, p: Seq<char>, sep: Seq<char>)
    ensures
        joined(seq![], sep) == Seq::<char>::empty(),
        joined(seq![p], sep) == p,
        a.len() > 0 && b.len() > 0 ==> joined(a + b, sep) == joined(a, sep) + sep + joined(b, sep),
    decreases b.len(),
{
    if a.len() > 0 && b.len() == 1 {
        assert((a + b).drop_last() =~= a);
        assert((a + b).last() == b[0]);
    } else if a.len() > 0 && b.len() > 1 {
        law_joined(a, b.drop_last(), p, sep);
        assert((a + b).drop_last() =~= a + b.drop_last());
        assert((a + b).last() == b.last());
        assert(joined(a + b, sep) =~= joined(a, sep) + sep + joined(b, sep));
    }
}

/// The pieces of a text hold no separator, and joined they are the text again. So every
/// piece is there, as it is, in its place.
pub proof fn law_split_joins_back(s: Seq<char>, sep: char)
    ensures
        split(s, sep).len() > 0,
        joined(split(s, sep), seq![sep]) == s,
        forall|m: int| 0 <= m < split(s, sep).len() ==> !(#[trigger] split(s, sep)[m]).contains(sep),
{
    lemma_split_pieces(s, sep, 0);
    lemma_split_joins_back(s, sep, 0);
    assert(s.subrange(0, s.len() as int) =~= s);
}

proof fn lemma_split_joins_back(s: Seq<char>, sep: char, i: int)
    requires
        0 <= i <= s.len(),
    ensures
        split_from(s, sep, i).len() > 0,
        joined(split_from(s, sep, i), seq![sep]) == s.subrange(i, s.len() as int),
    decreases s.len() - i,
{
    let k = CharClass::Just(sep);
    lemma_next_in(s, k, i);
    let j = next_in(s, k, i);
    if j < s.len() {
        lemma_split_joins_back(s, sep, j + 1);
        let rest = split_from(s, sep, j + 1);
        let head = s.subrange(i, j);
        law_joined(seq![head], rest, head, seq![sep]);
        assert(s.subrange(i, s.len() as int) =~= head + seq![sep] + s.subrange(
            j + 1,
            s.len() as int,
        ));
    } else {
        law_joined(seq![], seq![], s.subrange(i, s.len() as int), seq![sep]);
    }
}

/// Pieces without the separator come back when what they are joined to is split.
pub proof fn law_joined_splits_back(v: Seq<Seq<char>>, sep: char)
    requires
        v.len() > 0,
        forall|i: int| 0 <= i < v.len() ==> !(#[trigger] v[i]).contains(sep),
    ensures
        split(joined(v, seq![sep]), sep) == v,
    decreases v.len(),
{
    if v.len() == 1 {
        lemma_split_single(v[0], sep);
        assert(v =~= seq![v[0]]);
    } else {
        let init = v.drop_last();
        assert forall|i: int| 0 <= i < init.len() implies !(#[trigger] init[i]).contains(sep) by {
            assert(init[i] == v[i]);
        }
        law_joined_splits_back(init, sep);
        assert(!v[v.len() - 1].contains(sep));
        lemma_split_concat(joined(init, seq![sep]), v.last(), sep, 0);
        lemma_split_single(v.last(), sep);
        assert(v =~= init + seq![v.last()]);
    }
}

/// Parting keeps the pieces that are not empty, in order: with the separator between
/// them, the pieces of two texts are those of the first and then those of the second.
pub proof fn law_parted(a: Seq<char>, b: Seq<char>, sep: char)
    ensures
        parted(a + seq![sep] + b, sep) == parted(a, sep) + parted(b, sep),
        !a.contains(sep) ==> parted(a, sep) == (if a.len() > 0 {
            seq![a]
        } else {
            seq![]
        }),
{
    lemma_parted_concat(a, b, sep);
    if !a.contains(sep) {
        lemma_parted_one(a, sep);
    }
}

/// A text begins with the line up to its first line feed, without a carriage return before
/// that, and goes on with the lines of the rest; a text without a line feed is one line,
/// and the empty text has none.
pub proof fn law_lines(a: Seq<char>, b: Seq<char>)
    requires
        !a.contains('\n'),
    ensures
        lines_of(a + seq!['\n'] + b) == seq![
            if a.len() > 0 && a[a.len() - 1] == '\r' {
                a.take(a.len() - 1)
            } else {
                a
            },
        ] + lines_of(b),
        a.len() > 0 ==> lines_of(a) == seq![a],
        lines_of(Seq::<char>::empty()) == Seq::<Seq<char>>::empty(),
{
    let k = CharClass::Just('\n');
    let t = seq!['\n'] + b;
    let s = a + seq!['\n'] + b;
    assert(s =~= a + t);
    lemma_next_in(a, k, 0);
    let j = next_in(a, k, 0);
    if j < a.len() {
        assert(a.contains(a[j]));
    }
    lemma_next_in_append(a, t, k, 0);
    assert(s[a.len() as int] == '\n');
    assert(next_in(s, k, a.len() as int) == a.len());
    assert(s.subrange(0, a.len() as int) =~= a);
    assert(s =~= (a + seq!['\n']) + b);
    lemma_lines_shift(a + seq!['\n'], b, 0);
    if a.len() > 0 {
        assert(a.drop_last() =~= a.take(a.len() - 1));
        assert(a.subrange(0, a.len() as int) =~= a);
    }
    assert(lines_of(Seq::<char>::empty()) =~= Seq::<Seq<char>>::empty());
}

proof fn lemma_lines_shift(a: Seq<char>, t: Seq<char>, i: int)
    requires
        0 <= i <= t.len(),
    ensures
        lines_from(a + t, a.len() + i) == lines_from(t, i),
    decreases t.len() - i,
{
    let k = CharClass::Just('\n');
    let s = a + t;
    lemma_next_in_shift(a, t, k, i);
    lemma_next_in(t, k, i);
    let j = next_in(t, k, i);
    assert(s.subrange(a.len() + i, a.len() + j) =~= t.subrange(i, j));
    if j < t.len() {
        lemma_lines_shift(a, t, j + 1);
    }
}

proof fn lemma_run_end_append(a: Seq<char>, t: Seq<char>, k: CharClass, i: int)
    requires
        0 <= i <= a.len(),
    ensures
        run_end(a, k, i) < a.len() ==> run_end(a + t, k, i) == run_end(a, k, i),
        run_end(a, k, i) >= a.len() ==> run_end(a + t, k, i) == run_end(a + t, k, a.len() as int),
    decreases a.len() - i,
{
    if i < a.len() {
        assert((a + t)[i] == a[i]);
        lemma_run_end_append(a, t, k, i + 1);
    }
}

proof fn lemma_run_end_shift(a: Seq<char>, t: Seq<char>, k: CharClass, i: int)
    requires
        0 <= i <= t.len(),
    ensures
        run_end(a + t, k, a.len() + i) == a.len() + run_end(t, k, i),
    decreases t.len() - i,
{
    if i < t.len() {
        assert((a + t)[a.len() + i] == t[i]);
        lemma_run_end_shift(a, t, k, i + 1);
    }
}

proof fn lemma_words_shift(a: Seq<char>, t: Seq<char>, i: int)
    requires
        0 <= i <= t.len(),
    ensures
        words_from(a + t, a.len() + i) == words_from(t, i),
    decreases t.len() - i,
{
    let k = CharClass::Space;
    let s = a + t;
    lemma_run_end_shift(a, t, k, i);
    lemma_run_end(t, k, i);
    let x = run_end(t, k, i);
    lemma_next_in_shift(a, t, k, x);
    lemma_next_in(t, k, x);
    let y = next_in(t, k, x);
    assert(s.subrange(a.len() + x, a.len() + y) =~= t.subrange(x, y));
    if x < y {
        lemma_words_shift(a, t, y);
    }
}

proof fn lemma_words_concat(a: Seq<char>, c: char, b: Seq<char>, i: int)
    requires
        is_space(c),
        0 <= i <= a.len(),
    ensures
        words_from(a + seq![c] + b, i) == words_from(a, i) + words_of(b),
    decreases a.len() - i,
{
    let k = CharClass::Space;
    let t = seq![c] + b;
    let s = a + seq![c] + b;
    let n = a.len() as int;
    assert(s =~= a + t);
    assert(s =~= (a + seq![c]) + b);
    assert(s[n] == c);
    lemma_run_end(a, k, i);
    lemma_run_end_append(a, t, k, i);
    let x = run_end(a, k, i);
    if x < n {
        lemma_next_in(a, k, x);
        lemma_next_in_append(a, t, k, x);
        let y = next_in(a, k, x);
        assert(next_in(s, k, n) == n);
        assert(s.subrange(x, y) =~= a.subrange(x, y));
        lemma_words_concat(a, c, b, y);
        assert(words_from(s, i) =~= words_from(a, i) + words_of(b));
    } else {
        assert(run_end(s, k, n) == run_end(s, k, n + 1));
        lemma_words_shift(a + seq![c], b, 0);
        assert(next_in(a, k, n) == n);
        assert(words_from(a, i) =~= seq![]);
        assert(words_from(s, i) == words_from(s, n + 1));
        assert(words_from(s, i) =~= words_from(a, i) + words_of(b));
    }
}

/// White space parts the words before it from those after it, a text without white space
/// is one word, and the empty text has none. So every word is there, in its place.
pub proof fn law_words(a: Seq<char>, c: char, b: Seq<char>)
    ensures
        is_space(c) ==> words_of(a + seq![c] + b) == words_of(a) + words_of(b),
        a.len() > 0 && (forall|i: int| 0 <= i < a.len() ==> !is_space(#[trigger] a[i])) ==> words_of(a)
            == seq![a],
        words_of(Seq::<char>::empty()) == Seq::<Seq<char>>::empty(),
{
    if is_space(c) {
        lemma_words_concat(a, c, b, 0);
    }
    if a.len() > 0 && (forall|i: int| 0 <= i < a.len() ==> !is_space(#[trigger] a[i])) {
        assert(!is_space(a[0]));
        lemma_next_in(a, CharClass::Space, 0);
        let y = next_in(a, CharClass::Space, 0);
        if y < a.len() {
            assert(!is_space(a[y]));
        }
        assert(a.subrange(0, y) =~= a);
        assert(words_from(a, y) =~= seq![]);
        assert(words_of(a) =~= seq![a]);
    }
    assert(words_of(Seq::<char>::empty()) =~= Seq::<Seq<char>>::empty());
}

/// A word is not empty and holds no white space.
pub proof fn law_words_hold_no_space(s: Seq<char>)
    ensures
        forall|m: int|
            0 <= m < words_of(s).len() ==> (#[trigger] words_of(s)[m]).len() > 0 && forall|i: int|
                0 <= i < words_of(s)[m].len() ==> !is_space(#[trigger] words_of(s)[m][i]),
{
    lemma_words_hold_no_space(s, 0);
}

proof fn lemma_words_hold_no_space(s: Seq<char>, i: int)
    requires
        0 <= i <= s.len(),
    ensures
        forall|m: int|
            0 <= m < words_from(s, i).len() ==> (#[trigger] words_from(s, i)[m]).len() > 0 && forall|
                n: int,
            |
                0 <= n < words_from(s, i)[m].len() ==> !is_space(#[trigger] words_from(s, i)[m][n]),
    decreases s.len() - i,
{
    let k = CharClass::Space;
    lemma_run_end(s, k, i);
    let x = run_end(s, k, i);
    lemma_next_in(s, k, x);
    let y = next_in(s, k, x);
    if x < y {
        lemma_words_hold_no_space(s, y);
        let rest = words_from(s, y);
        let word = s.subrange(x, y);
        assert forall|n: int| 0 <= n < word.len() implies !is_space(#[trigger] word[n]) by {
            assert(!in_class(k, s[x + n]));
        }
        assert forall|m: int| 0 <= m < words_from(s, i).len() implies (#[trigger] words_from(
            s,
            i,
        )[m]).len() > 0 && forall|n: int|
            0 <= n < words_from(s, i)[m].len() ==> !is_space(#[trigger] words_from(s, i)[m][n]) by {
            if m > 0 {
                assert(words_from(s, i)[m] == rest[m - 1]);
            }
        }
    }
}

/// Whether positions rise.
pub open spec fn rises(at: Seq<int>) -> bool {
    forall|j: int, k: int| 0 <= j < k < at.len() ==> #[trigger] at[j] < #[trigger] at[k]
}

/// Whether `at` lists, in order, the positions of a sequence at which `keep` holds, and no
/// others.
pub open spec fn are_places<A>(v: Seq<A>, keep: spec_fn(int) -> bool, at: Seq<int>) -> bool {
    &&& rises(at)
    &&& forall|k: int| 0 <= k < at.len() ==> 0 <= #[trigger] at[k] < v.len() && keep(at[k])
    &&& forall|i: int| 0 <= i < v.len() && #[trigger] keep(i) ==> at.contains(i)
}

/// Places of the first so many values are places of the values with one more, which
/// is among them if it is kept.
pub(crate) proof fn lemma_places_push<A>(
    v: Seq<A>,
    x: A,
    keep: spec_fn(int) -> bool,
    at: Seq<int>,
)
    requires
        are_places(v, keep, at),
    ensures
        are_places(
            v.push(x),
            keep,
            if keep(v.len() as int) {
                at.push(v.len() as int)
            } else {
                at
            },
        ),
{
    let n = v.len() as int;
    let more = if keep(n) {
        at.push(n)
    } else {
        at
    };
    assert forall|i: int| 0 <= i < v.push(x).len() && #[trigger] keep(i) implies more.contains(
        i,
    ) by {
        if i < n {
            assert(at.contains(i));
            let k = choose|k: int| 0 <= k < at.len() && at[k] == i;
            assert(more[k] == i);
        } else {
            assert(more[at.len() as int] == i);
        }
    }
}

/// What is picked of a sequence is what the function gives at the places where it gives
/// anything.
pub(crate) proof fn lemma_picked<A, B>(v: Seq<A>, f: spec_fn(A) -> Option<B>) -> (at: Seq<int>)
    ensures
        are_places(v, |i: int| f(v[i]) is Some, at),
        at.len() == v.filter_map(f).len(),
        forall|k: int| 0 <= k < at.len() ==> f(v[#[trigger] at[k]]) == Some(v.filter_map(f)[k]),
    decreases v.len(),
{
    reveal(Seq::filter_map);
    let keep = |i: int| f(v[i]) is Some;
    if v.len() == 0 {
        assert(are_places(v, keep, Seq::empty()));
        Seq::empty()
    } else {
        let before = v.drop_last();
        let at = lemma_picked(before, f);
        let keep_before = |i: int| f(before[i]) is Some;
        assert(are_places(before, keep, at)) by {
            assert forall|i: int| 0 <= i < before.len() && #[trigger] keep(i) implies at.contains(
                i,
            ) by {
                assert(keep_before(i));
            }
            assert forall|k: int| 0 <= k < at.len() implies 0 <= #[trigger] at[k] < before.len()
                && keep(at[k]) by {
                assert(keep_before(at[k]));
            }
        }
        assert(v =~= before.push(v.last()));
        lemma_places_push(before, v.last(), keep, at);
        let more = if keep(before.len() as int) {
            at.push(before.len() as int)
        } else {
            at
        };
        assert forall|k: int| 0 <= k < more.len() implies f(v[#[trigger] more[k]]) == Some(
            v.filter_map(f)[k],
        ) by {
            if k < at.len() {
                assert(more[k] == at[k]);
                assert(before[at[k]] == v[at[k]]);
                assert(v.filter_map(f)[k] == before.filter_map(f)[k]);
            }
        }
        more
    }
}

/// What is kept of a sequence stands at the places where it is to be kept.
pub(crate) proof fn lemma_kept_places<A>(v: Seq<A>, p: spec_fn(A) -> bool) -> (at: Seq<int>)
    ensures
        rises(at),
        at.len() == v.filter(p).len(),
        forall|k: int|
            0 <= k < at.len() ==> 0 <= #[trigger] at[k] < v.len() && p(v[at[k]]) && v.filter(p)[k]
                == v[at[k]],
        forall|i: int| 0 <= i < v.len() && p(#[trigger] v[i]) ==> at.contains(i),
    decreases v.len(),
{
    reveal(Seq::filter);
    if v.len() == 0 {
        Seq::empty()
    } else {
        let before = v.drop_last();
        let at = lemma_kept_places(before, p);
        let more = if p(v.last()) {
            at.push(v.len() - 1)
        } else {
            at
        };
        assert forall|i: int| 0 <= i < v.len() && p(#[trigger] v[i]) implies more.contains(i) by {
            if i < v.len() - 1 {
                assert(p(before[i]));
                let k = choose|k: int| 0 <= k < at.len() && at[k] == i;
                assert(more[k] == i);
            } else {
                assert(more[at.len() as int] == i);
            }
        }
        assert forall|k: int| 0 <= k < more.len() implies 0 <= #[trigger] more[k] < v.len() && p(
            v[more[k]],
        ) && v.filter(p)[k] == v[more[k]] by {
            if k < at.len() {
                assert(more[k] == at[k]);
                assert(before[at[k]] == v[at[k]]);
                assert(v.filter(p)[k] == before.filter(p)[k]);
            }
        }
        more
    }
}

} // verus!
