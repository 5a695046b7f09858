//! The order of texts, and a stable sort by it.

use crate::text::to_chars;
use vstd::prelude::*;

verus! {

/// Whether `a` comes before `b`: at the first place where they differ its character
/// has the smaller code point, or it ends there.
pub open spec fn text_less(a: Seq<char>, b: Seq<char>) -> bool
    decreases a.len(),
{
    if b.len() == 0 {
        false
    } else if a.len() == 0 {
        true
    } else if a[0] == b[0] {
        text_less(a.drop_first(), b.drop_first())
    } else {
        (a[0] as u32) < (b[0] as u32)
    }
}

/// Of two texts at most one comes before the other, and of no text itself.
pub proof fn lemma_text_less_asymmetric(a: Seq<char>, b: Seq<char>)
    ensures
        text_less(a, b) ==> !text_less(b, a),
        text_less(a, b) ==> a != b,
    decreases a.len(),
{
    if a.len() > 0 && b.len() > 0 && a[0] == b[0] {
        lemma_text_less_asymmetric(a.drop_first(), b.drop_first());
    }
}

/// Two texts of which neither comes before the other are the same.
pub proof fn lemma_text_less_total(a: Seq<char>, b: Seq<char>)
    ensures
        text_less(a, b) || text_less(b, a) || a == b,
    decreases a.len(),
{
    if a.len() > 0 && b.len() > 0 && a[0] == b[0] {
        lemma_text_less_total(a.drop_first(), b.drop_first());
        if a.drop_first() == b.drop_first() {
            assert(a =~= seq![a[0]] + a.drop_first());
            assert(b =~= seq![b[0]] + b.drop_first());
        }
    } else if a.len() == 0 && b.len() == 0 {
        assert(a =~= b);
    } else if a.len() > 0 && b.len() > 0 {
        vstd::utf8::char_u32_cast(a[0], a[0] as u32);
        vstd::utf8::char_u32_cast(b[0], b[0] as u32);
    }
}

/// Not to come before another text passes on.
pub proof fn lemma_text_less_passes(a: Seq<char>, b: Seq<char>, c: Seq<char>)
    requires
        !text_less(b, a),
        !text_less(c, b),
    ensures
        !text_less(c, a),
    decreases a.len(),
{
    if a.len() > 0 && b.len() > 0 && c.len() > 0 && a[0] == b[0] && b[0] == c[0] {
        lemma_text_less_passes(a.drop_first(), b.drop_first(), c.drop_first());
    } else if a.len() > 0 && b.len() > 0 && c.len() > 0 {
        vstd::utf8::char_u32_cast(a[0], a[0] as u32);
        vstd::utf8::char_u32_cast(b[0], b[0] as u32);
        vstd::utf8::char_u32_cast(c[0], c[0] as u32);
    }
}

/// Whether `a` comes before `b`.
pub fn less(a: &str, b: &str) -> (r: bool)
    ensures
        r == text_less(a@, b@),
{
    let x: Vec<char> = to_chars(a);
    let y: Vec<char> = to_chars(b);
    let n: usize = x.len();
    let m: usize = y.len();
    let mut i: usize = 0;
    assert(x@.skip(0) =~= x@);
    assert(y@.skip(0) =~= y@);
    while i < n && i < m
        invariant
            x@ == a@,
            y@ == b@,
            n == x@.len(),
            m == y@.len(),
            i <= n,
            i <= m,
            text_less(x@, y@) == text_less(x@.skip(i as int), y@.skip(i as int)),
        decreases n - i,
    {
        assert(x@.skip(i as int).drop_first() =~= x@.skip(i + 1));
        assert(y@.skip(i as int).drop_first() =~= y@.skip(i + 1));
        if x[i] != y[i] {
            return (x[i] as u32) < (y[i] as u32);
        }
        i += 1;
    }
    i < m
}

/// What is sorted by a text.
pub trait Keyed {
    /// The text that a value is sorted by.
    spec fn key(&self) -> Seq<char>;

    /// The text that the value is sorted by.
    fn text(&self) -> (r: &str)
        ensures
            r@ == self.key(),
    ;
}

impl Keyed for String {
    open spec fn key(&self) -> Seq<char> {
        self@
    }

    fn text(&self) -> (r: &str) {
        self.as_str()
    }
}

/// Whether a value's text is `k`.
pub open spec fn key_is<T: Keyed>(k: Seq<char>) -> spec_fn(T) -> bool {
    |x: T| x.key() == k
}

/// The values whose text is `k`, in order.
pub open spec fn with_key<T: Keyed>(v: Seq<T>, k: Seq<char>) -> Seq<T> {
    v.filter(key_is(k))
}

/// Whether the texts of `v` are in order.
pub open spec fn in_order<T: Keyed>(v: Seq<T>) -> bool {
    forall|i: int, j: int|
        0 <= i < j < v.len() ==> !text_less((#[trigger] v[j]).key(), (#[trigger] v[i]).key())
}

/// Whether `r` holds what `v` holds, in the order of the texts; what has the same
/// text is in the order that it has in `v`.
pub open spec fn is_sort_of<T: Keyed>(v: Seq<T>, r: Seq<T>) -> bool {
    &&& in_order(r)
    &&& r.to_multiset() == v.to_multiset()
    &&& forall|k: Seq<char>| #[trigger] with_key(r, k) == with_key(v, k)
}

proof fn lemma_none_with_key<T: Keyed>(v: Seq<T>, k: Seq<char>)
    requires
        forall|i: int| 0 <= i < v.len() ==> (#[trigger] v[i]).key() != k,
    ensures
        with_key(v, k) == Seq::<T>::empty(),
    decreases v.len(),
{
    reveal(Seq::filter);
    if v.len() > 0 {
        assert(v.last() == v[v.len() - 1]);
        assert forall|i: int| 0 <= i < v.drop_last().len() implies (
        #[trigger] v.drop_last()[i]).key() != k by {
            assert(v.drop_last()[i] == v[i]);
        }
        lemma_none_with_key(v.drop_last(), k);
    }
}

proof fn lemma_insert_with_key<T: Keyed>(v: Seq<T>, at: int, x: T, k: Seq<char>)
    requires
        0 <= at <= v.len(),
        forall|i: int| 0 <= i < at ==> text_less((#[trigger] v[i]).key(), x.key()),
    ensures
        with_key(v.insert(at, x), k) == with_key(seq![x] + v, k),
{
    let p = key_is::<T>(k);
    let lo = v.take(at);
    let hi = v.skip(at);
    assert(v =~= lo + hi);
    assert(v.insert(at, x) =~= lo + (seq![x] + hi));
    Seq::filter_distributes_over_add(lo, hi, p);
    Seq::filter_distributes_over_add(seq![x], hi, p);
    Seq::filter_distributes_over_add(lo, seq![x] + hi, p);
    Seq::filter_distributes_over_add(seq![x], lo + hi, p);
    if k == x.key() {
        assert forall|i: int| 0 <= i < lo.len() implies (#[trigger] lo[i]).key() != k by {
            assert(lo[i] == v[i]);
            lemma_text_less_asymmetric(v[i].key(), x.key());
        }
        lemma_none_with_key(lo, k);
        assert(lo.filter(p) == with_key(lo, k));
        assert(lo.filter(p) + (seq![x].filter(p) + hi.filter(p)) =~= seq![x].filter(p) + (lo.filter(
            p,
        ) + hi.filter(p)));
    } else {
        assert(seq![x].filter(p) =~= Seq::<T>::empty()) by {
            reveal_with_fuel(Seq::filter, 2);
        }
        assert(lo.filter(p) + (seq![x].filter(p) + hi.filter(p)) =~= seq![x].filter(p) + (lo.filter(
            p,
        ) + hi.filter(p)));
    }
}

/// The values in the order of their texts.
pub fn sort_by_text<T: Keyed>(v: Vec<T>) -> (r: Vec<T>)
    ensures
        is_sort_of(v@, r@),
{
    let mut rest: Vec<T> = v;
    let ghost all = rest@;
    let mut out: Vec<T> = Vec::new();
    proof {
        assert(all.skip(all.len() as int) =~= out@);
        assert(is_sort_of(all.skip(rest@.len() as int), out@));
        assert(rest@ =~= all.take(rest@.len() as int));
    }
    while rest.len() > 0
        invariant
            rest@.len() <= all.len(),
            rest@ == all.take(rest@.len() as int),
            is_sort_of(all.skip(rest@.len() as int), out@),
        decreases rest@.len(),
    {
        let ghost before = out@;
        let ghost n = rest@.len() as int;
        let x: T = rest.pop().unwrap();
        let mut at: usize = 0;
        while at < out.len() && less(out[at].text(), x.text())
            invariant
                at <= out@.len(),
                forall|i: int| 0 <= i < at ==> text_less((#[trigger] out@[i]).key(), x.key()),
            decreases out@.len() - at,
        {
            at += 1;
        }
        out.insert(at, x);
        proof {
            assert(x == all[n - 1]);
            assert(all.skip(n - 1) =~= seq![x] + all.skip(n));
            assert(rest@ =~= all.take(n - 1));
            assert forall|k: Seq<char>| #[trigger]
                with_key(out@, k) == with_key(all.skip(n - 1), k) by {
                lemma_insert_with_key(before, at as int, x, k);
                let p = key_is::<T>(k);
                Seq::filter_distributes_over_add(seq![x], before, p);
                Seq::filter_distributes_over_add(seq![x], all.skip(n), p);
                assert(with_key(before, k) == with_key(all.skip(n), k));
            }
            lemma_insert_in_order(before, at as int, x);
            vstd::seq_lib::to_multiset_insert(before, at as int, x);
            vstd::seq_lib::to_multiset_insert(all.skip(n), 0, x);
            assert(all.skip(n).insert(0, x) =~= all.skip(n - 1));
        }
    }
    assert(all.skip(0) =~= all);
    out
}

proof fn lemma_insert_in_order<T: Keyed>(v: Seq<T>, at: int, x: T)
    requires
        in_order(v),
        0 <= at <= v.len(),
        forall|i: int| 0 <= i < at ==> text_less((#[trigger] v[i]).key(), x.key()),
        at < v.len() ==> !text_less(v[at].key(), x.key()),
    ensures
        in_order(v.insert(at, x)),
{
    let w = v.insert(at, x);
    assert forall|i: int, j: int| 0 <= i < j < w.len() implies !text_less(
        (#[trigger] w[j]).key(),
        (#[trigger] w[i]).key(),
    ) by {
        let i0 = if i < at { i } else { i - 1 };
        let j0 = if j < at { j } else { j - 1 };
        if i == at {
            assert(w[j] == v[j0]);
            if j0 > at {
                assert(!text_less(v[j0].key(), v[at].key()));
                lemma_text_less_passes(x.key(), v[at].key(), v[j0].key());
            }
        } else if j == at {
            assert(w[i] == v[i]);
            lemma_text_less_asymmetric(v[i].key(), x.key());
        } else {
            assert(w[i] == v[i0]);
            assert(w[j] == v[j0]);
        }
    }
}

/// Texts are ordered by the first place where they differ: what they begin with alike does
/// not matter, the smaller character comes first there, and the end before any character.
pub proof fn law_text_less(p: Seq<char>, x: char, y: char, a: Seq<char>, b: Seq<char>)
    ensures
        text_less(p + a, p + b) == text_less(a, b),
        x != y ==> text_less(seq![x] + a, seq![y] + b) == (x < y),
        text_less(Seq::<char>::empty(), b) == (b.len() > 0),
        !text_less(a, Seq::<char>::empty()),
    decreases p.len(),
{
    if p.len() > 0 {
        law_text_less(p.drop_first(), x, y, a, b);
        assert((p + a).drop_first() =~= p.drop_first() + a);
        assert((p + b).drop_first() =~= p.drop_first() + b);
    } else {
        assert(p + a =~= a);
        assert(p + b =~= b);
    }
}

/// Sorting neither loses nor adds anything, puts no value before one with a smaller text,
/// and leaves values with the same text in their order.
pub proof fn law_sorted<T: Keyed>(v: Seq<T>, r: Seq<T>, k: Seq<char>)
    requires
        is_sort_of(v, r),
    ensures
        r.len() == v.len(),
        forall|x: T| #[trigger] r.contains(x) <==> v.contains(x),
        forall|i: int, j: int|
            0 <= i < j < r.len() ==> (#[trigger] r[i]).key() == (#[trigger] r[j]).key() || text_less(
                r[i].key(),
                r[j].key(),
            ),
        r.filter(|x: T| x.key() == k) == v.filter(|x: T| x.key() == k),
{
    v.to_multiset_ensures();
    r.to_multiset_ensures();
    assert forall|x: T| #[trigger] r.contains(x) <==> v.contains(x) by {
        assert(r.to_multiset().count(x) == v.to_multiset().count(x));
    }
    assert forall|i: int, j: int| 0 <= i < j < r.len() implies (#[trigger] r[i]).key()
        == (#[trigger] r[j]).key() || text_less(r[i].key(), r[j].key()) by {
        lemma_text_less_total(r[i].key(), r[j].key());
    }
    assert((|x: T| x.key() == k) =~= key_is::<T>(k));
    assert(with_key(r, k) == with_key(v, k));
}

} // verus!
