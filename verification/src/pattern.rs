//! Finding and replacing stretches of text.

use crate::text::{from_chars, owned, texts, to_chars};
use vstd::prelude::*;
use vstd::string::*;

verus! {

/// Whether `pat` stands in `s` at position `i`.
pub open spec fn occurs_at<T>(s: Seq<T>, pat: Seq<T>, i: int) -> bool {
    0 <= i && i + pat.len() <= s.len() && s.subrange(i, i + pat.len()) == pat
}

/// Whether `pat` stands anywhere in `s`.
pub open spec fn has<T>(s: Seq<T>, pat: Seq<T>) -> bool {
    exists|i: int| occurs_at(s, pat, i)
}

/// The first position from `i` on where `pat` stands in `s`.
pub open spec fn find_from<T>(s: Seq<T>, pat: Seq<T>, i: int) -> Option<int>
    decreases s.len() + 1 - i,
{
    if i < 0 || i + pat.len() > s.len() {
        None
    } else if occurs_at(s, pat, i) {
        Some(i)
    } else {
        find_from(s, pat, i + 1)
    }
}

/// `s` from `i` on with `with` in place of each `pat`, taken from left to right
/// and without overlaps.
pub open spec fn replaced_from(s: Seq<char>, pat: Seq<char>, with: Seq<char>, i: int) -> Seq<char>
    decreases s.len() - i,
{
    if i < 0 || i >= s.len() {
        seq![]
    } else if pat.len() > 0 && occurs_at(s, pat, i) {
        with + replaced_from(s, pat, with, i + pat.len())
    } else {
        seq![s[i]] + replaced_from(s, pat, with, i + 1)
    }
}

/// `s` with `with` in place of each `pat`; `s` itself where `pat` is empty.
pub open spec fn replaced(s: Seq<char>, pat: Seq<char>, with: Seq<char>) -> Seq<char> {
    replaced_from(s, pat, with, 0)
}

/// `s` with `with` in place of the first `pat`.
pub open spec fn replaced_first(s: Seq<char>, pat: Seq<char>, with: Seq<char>) -> Seq<char> {
    match find_from(s, pat, 0) {
        Some(i) => s.take(i) + with + s.skip(i + pat.len()),
        None => s,
    }
}

/// `s` without the copies of `pat` that it begins with.
pub open spec fn stripped(s: Seq<char>, pat: Seq<char>) -> Seq<char>
    decreases s.len(),
{
    if pat.len() > 0 && pat.is_prefix_of(s) {
        stripped(s.skip(pat.len() as int), pat)
    } else {
        s
    }
}

/// `s` written `n` times over.
pub open spec fn repeated(s: Seq<char>, n: nat) -> Seq<char>
    decreases n,
{
    if n == 0 {
        seq![]
    } else {
        repeated(s, (n - 1) as nat) + s
    }
}

/// `find_from` gives the first place where the pattern stands.
pub proof fn lemma_find_from<T>(s: Seq<T>, pat: Seq<T>, i: int)
    requires
        0 <= i,
    ensures
        match find_from(s, pat, i) {
            Some(j) => i <= j && occurs_at(s, pat, j) && forall|m: int|
                i <= m < j ==> !occurs_at(s, pat, m),
            None => forall|m: int| i <= m ==> !occurs_at(s, pat, m),
        },
    decreases s.len() + 1 - i,
{
    if i + pat.len() <= s.len() && !occurs_at(s, pat, i) {
        lemma_find_from(s, pat, i + 1);
    }
}

/// `find_from` answers whether the text has the pattern at all.
pub proof fn lemma_find_has<T>(s: Seq<T>, pat: Seq<T>)
    ensures
        find_from(s, pat, 0) is Some <==> has(s, pat),
{
    lemma_find_from(s, pat, 0);
}

/// Whether `pat` stands in `s` at position `i`.
pub fn is_at(s: &Vec<char>, pat: &Vec<char>, i: usize) -> (r: bool)
    ensures
        r == occurs_at(s@, pat@, i as int),
{
    if i > s.len() || pat.len() > s.len() - i {
        return false;
    }
    let n: usize = s.len();
    let mut j: usize = 0;
    while j < pat.len()
        invariant
            j <= pat@.len(),
            n == s@.len(),
            i + pat@.len() <= n,
            forall|m: int| 0 <= m < j ==> s@[i + m] == #[trigger] pat@[m],
        decreases pat@.len() - j,
    {
        if s[i + j] != pat[j] {
            assert(s@.subrange(i as int, i + pat@.len())[j as int] != pat@[j as int]);
            return false;
        }
        j += 1;
    }
    assert(s@.subrange(i as int, i + pat@.len()) =~= pat@);
    true
}

/// The first position from `i` on where `pat` stands in `s`.
pub fn find_chars(s: &Vec<char>, pat: &Vec<char>, i: usize) -> (r: Option<usize>)
    requires
        i <= s@.len(),
    ensures
        match r {
            Some(j) => find_from(s@, pat@, i as int) == Some(j as int),
            None => find_from(s@, pat@, i as int) is None,
        },
{
    let mut j: usize = i;
    while j <= s.len() && pat.len() <= s.len() - j
        invariant
            i <= j <= s@.len() + 1,
            find_from(s@, pat@, i as int) == find_from(s@, pat@, j as int),
        decreases s@.len() + 1 - j,
    {
        if is_at(s, pat, j) {
            return Some(j);
        }
        if j == s.len() {
            assert(find_from(s@, pat@, j as int + 1) is None);
            return None;
        }
        j += 1;
    }
    None
}

/// Whether `pat` stands anywhere in `s` (`str::contains`).
pub fn contains(s: &str, pat: &str) -> (r: bool)
    ensures
        r == has(s@, pat@),
{
    let v: Vec<char> = to_chars(s);
    let p: Vec<char> = to_chars(pat);
    proof {
        lemma_find_has(s@, pat@);
    }
    find_chars(&v, &p, 0).is_some()
}

/// Whether `s` begins with `pat` (`str::starts_with`).
pub fn starts_with(s: &str, pat: &str) -> (r: bool)
    ensures
        r == pat@.is_prefix_of(s@),
{
    let v: Vec<char> = to_chars(s);
    let p: Vec<char> = to_chars(pat);
    let r: bool = is_at(&v, &p, 0);
    proof {
        if pat@.is_prefix_of(s@) {
            assert(s@.subrange(0, pat@.len() as int) =~= pat@);
        }
    }
    r
}

/// Whether `s` ends with `pat` (`str::ends_with`).
pub fn ends_with(s: &str, pat: &str) -> (r: bool)
    ensures
        r == pat@.is_suffix_of(s@),
{
    let v: Vec<char> = to_chars(s);
    let p: Vec<char> = to_chars(pat);
    if p.len() > v.len() {
        return false;
    }
    let at: usize = v.len() - p.len();
    let r: bool = is_at(&v, &p, at);
    proof {
        if pat@.is_suffix_of(s@) {
            assert(s@.subrange(at as int, at + pat@.len()) =~= pat@);
        }
    }
    r
}

/// `s` with `with` in place of each `pat`. An empty `pat` stands nowhere: unlike with
/// `str::replace`, the text is left as it is.
pub fn replace(s: &str, pat: &str, with: &str) -> (r: String)
    ensures
        r@ == replaced(s@, pat@, with@),
{
    let v: Vec<char> = to_chars(s);
    let p: Vec<char> = to_chars(pat);
    let mut out: String = String::new();
    let mut i: usize = 0;
    while i < v.len()
        invariant
            v@ == s@,
            p@ == pat@,
            i <= v@.len(),
            out@ + replaced_from(s@, pat@, with@, i as int) =~= replaced(s@, pat@, with@),
        decreases v@.len() - i,
    {
        if p.len() > 0 && is_at(&v, &p, i) {
            out.append(with);
            i += p.len();
        } else {
            out.push(v[i]);
            i += 1;
        }
    }
    out
}

/// `s` with `with` in place of the first `pat` (`str::replacen` with a count of one).
pub fn replace_first(s: &str, pat: &str, with: &str) -> (r: String)
    ensures
        r@ == replaced_first(s@, pat@, with@),
{
    let v: Vec<char> = to_chars(s);
    let p: Vec<char> = to_chars(pat);
    let n: usize = v.len();
    proof {
        lemma_find_from(s@, pat@, 0);
    }
    match find_chars(&v, &p, 0) {
        Some(i) => {
            let mut out: String = from_chars(&v, 0, i);
            out.append(with);
            let rest: String = from_chars(&v, i + p.len(), n);
            out.append(rest.as_str());
            assert(out@ =~= replaced_first(s@, pat@, with@));
            out
        },
        None => owned(s),
    }
}

/// `s` without the copies of `pat` that it begins with (`str::trim_start_matches`).
pub fn strip(s: &str, pat: &str) -> (r: String)
    ensures
        r@ == stripped(s@, pat@),
{
    let v: Vec<char> = to_chars(s);
    let p: Vec<char> = to_chars(pat);
    let n: usize = v.len();
    let mut i: usize = 0;
    assert(s@.skip(0) =~= s@);
    while p.len() > 0 && is_at(&v, &p, i)
        invariant
            v@ == s@,
            p@ == pat@,
            n == v@.len(),
            i <= n,
            stripped(s@.skip(i as int), pat@) == stripped(s@, pat@),
        decreases v@.len() - i,
    {
        proof {
            let t = s@.skip(i as int);
            assert(pat@.is_prefix_of(t)) by {
                assert(t.take(pat@.len() as int) =~= s@.subrange(i as int, i + pat@.len()));
            }
            assert(t.skip(pat@.len() as int) =~= s@.skip(i + pat@.len()));
        }
        i += p.len();
    }
    let r: String = from_chars(&v, i, n);
    proof {
        let t = s@.skip(i as int);
        assert(r@ =~= t);
        if pat@.len() > 0 && pat@.is_prefix_of(t) {
            assert(s@.subrange(i as int, i + pat@.len()) =~= pat@);
        }
    }
    r
}

/// `s` written `n` times over (`str::repeat`).
pub fn repeat(s: &str, n: usize) -> (r: String)
    ensures
        r@ == repeated(s@, n as nat),
{
    let mut out: String = String::new();
    let mut i: usize = 0;
    while i < n
        invariant
            i <= n,
            out@ =~= repeated(s@, i as nat),
        decreases n - i,
    {
        out.append(s);
        i += 1;
    }
    out
}

/// Whether some string of the vector holds exactly the characters of `s`.
pub fn contains_text(v: &Vec<String>, s: &str) -> (r: bool)
    ensures
        r == texts(v@).contains(s@),
{
    let mut i: usize = 0;
    while i < v.len()
        invariant
            i <= v@.len(),
            forall|j: int| 0 <= j < i ==> texts(v@)[j] != s@,
        decreases v@.len() - i,
    {
        if crate::text::same(v[i].as_str(), s) {
            assert(texts(v@)[i as int] == s@);
            return true;
        }
        i += 1;
    }
    false
}

// ---------------------------------------------------------------------------
// Laws
// ---------------------------------------------------------------------------

/// A pattern stands in a text where each of its characters does, one after the other,
/// and anywhere in it where the text is the pattern with something around it.
pub proof fn law_occurrence(s: Seq<char>, pat: Seq<char>, i: int)
    ensures
        occurs_at(s, pat, i) <==> 0 <= i && i + pat.len() <= s.len() && forall|j: int|
            0 <= j < pat.len() ==> s[i + j] == #[trigger] pat[j],
        has(s, pat) <==> exists|a: Seq<char>, b: Seq<char>| s == #[trigger] (a + pat + b),
{
    if 0 <= i && i + pat.len() <= s.len() {
        let part = s.subrange(i, i + pat.len());
        if forall|j: int| 0 <= j < pat.len() ==> s[i + j] == #[trigger] pat[j] {
            assert(part =~= pat);
        }
        if part == pat {
            assert forall|j: int| 0 <= j < pat.len() implies s[i + j] == #[trigger] pat[j] by {
                assert(part[j] == s[i + j]);
            }
        }
    }
    if has(s, pat) {
        let k = choose|k: int| occurs_at(s, pat, k);
        assert(s =~= s.take(k) + pat + s.skip(k + pat.len()));
    }
    if exists|a: Seq<char>, b: Seq<char>| s == #[trigger] (a + pat + b) {
        let (a, b) = choose|a: Seq<char>, b: Seq<char>| s == #[trigger] (a + pat + b);
        assert((a + pat + b).subrange(a.len() as int, (a.len() + pat.len()) as int) =~= pat);
        assert(occurs_at(s, pat, a.len() as int));
    }
}

pub(crate) proof fn lemma_replaced_shift(a: Seq<char>, t: Seq<char>, pat: Seq<char>, with: Seq<char>, i: int)
    requires
        0 <= i <= t.len(),
    ensures
        replaced_from(a + t, pat, with, a.len() + i) == replaced_from(t, pat, with, i),
    decreases t.len() - i,
{
    let s = a + t;
    if i < t.len() {
        if i + pat.len() <= t.len() {
            assert(s.subrange(a.len() + i, a.len() + i + pat.len()) =~= t.subrange(
                i,
                i + pat.len(),
            ));
        }
        assert(occurs_at(s, pat, a.len() + i) == occurs_at(t, pat, i));
        if pat.len() > 0 && occurs_at(t, pat, i) {
            lemma_replaced_shift(a, t, pat, with, i + pat.len());
        } else {
            lemma_replaced_shift(a, t, pat, with, i + 1);
        }
    }
}

proof fn lemma_replaced_none(s: Seq<char>, pat: Seq<char>, with: Seq<char>, i: int, n: int)
    requires
        0 <= i <= n <= s.len(),
        forall|m: int| i <= m < n ==> pat.len() == 0 || !(#[trigger] occurs_at(s, pat, m)),
    ensures
        replaced_from(s, pat, with, i) == s.subrange(i, n) + replaced_from(s, pat, with, n),
    decreases n - i,
{
    if i < n {
        lemma_replaced_none(s, pat, with, i + 1, n);
        assert(pat.len() == 0 || !occurs_at(s, pat, i));
        assert(s.subrange(i, n) =~= seq![s[i]] + s.subrange(i + 1, n));
        assert(replaced_from(s, pat, with, i) =~= s.subrange(i, n) + replaced_from(
            s,
            pat,
            with,
            n,
        ));
    } else {
        assert(replaced_from(s, pat, with, i) =~= s.subrange(i, n) + replaced_from(
            s,
            pat,
            with,
            n,
        ));
    }
}

/// A text without the pattern stays as it is. In one that has it, what stands before the
/// first occurrence stays, the occurrence is replaced, and what follows is treated alike.
pub proof fn law_replaced(a: Seq<char>, pat: Seq<char>, b: Seq<char>, with: Seq<char>)
    requires
        pat.len() > 0,
    ensures
        !(has(a, pat)) ==> replaced(a, pat, with) == a,
        find_from(a + pat + b, pat, 0) == Some(a.len() as int) ==> replaced(a + pat + b, pat, with)
            == a + with + replaced(b, pat, with),
        replaced(Seq::<char>::empty(), pat, with) == Seq::<char>::empty(),
{
    if !(has(a, pat)) {
        lemma_replaced_none(a, pat, with, 0, a.len() as int);
        assert(replaced(a, pat, with) =~= a);
    }
    let s = a + pat + b;
    lemma_find_from(s, pat, 0);
    if find_from(s, pat, 0) == Some(a.len() as int) {
        lemma_replaced_none(s, pat, with, 0, a.len() as int);
        assert(s =~= (a + pat) + b);
        lemma_replaced_shift(a + pat, b, pat, with, 0);
        assert(s.subrange(0, a.len() as int) =~= a);
        assert(replaced(s, pat, with) =~= a + with + replaced(b, pat, with));
    }
}

/// One character in place of another one: the text stays as long as it is, and every
/// character but those that are replaced stays where it is.
pub proof fn law_replaced_character(s: Seq<char>, c: char, d: char)
    ensures
        replaced(s, seq![c], seq![d]).len() == s.len(),
        forall|i: int|
            0 <= i < s.len() ==> #[trigger] replaced(s, seq![c], seq![d])[i] == (if s[i] == c {
                d
            } else {
                s[i]
            }),
{
    lemma_replaced_character(s, c, d, 0);
}

proof fn lemma_replaced_character(s: Seq<char>, c: char, d: char, i: int)
    requires
        0 <= i <= s.len(),
    ensures
        replaced_from(s, seq![c], seq![d], i).len() == s.len() - i,
        forall|j: int|
            0 <= j < s.len() - i ==> #[trigger] replaced_from(s, seq![c], seq![d], i)[j] == (if s[i
                + j] == c {
                d
            } else {
                s[i + j]
            }),
    decreases s.len() - i,
{
    if i < s.len() {
        lemma_replaced_character(s, c, d, i + 1);
        assert(s.subrange(i, i + 1) =~= seq![s[i]]);
        assert(seq![s[i]][0] == s[i] && seq![c][0] == c);
        let rest = replaced_from(s, seq![c], seq![d], i + 1);
        let all = replaced_from(s, seq![c], seq![d], i);
        assert(all =~= seq![if s[i] == c {
            d
        } else {
            s[i]
        }] + rest);
        assert forall|j: int| 0 <= j < s.len() - i implies #[trigger] all[j] == (if s[i + j] == c {
            d
        } else {
            s[i + j]
        }) by {
            if j > 0 {
                assert(all[j] == rest[j - 1]);
            }
        }
    }
}

/// Only the first occurrence is replaced where one is, and nothing is where there is
/// none.
pub proof fn law_replaced_first(a: Seq<char>, pat: Seq<char>, b: Seq<char>, with: Seq<char>)
    ensures
        !(has(a, pat)) ==> replaced_first(a, pat, with) == a,
        find_from(a + pat + b, pat, 0) == Some(a.len() as int) ==> replaced_first(
            a + pat + b,
            pat,
            with,
        ) == a + with + b,
{
    lemma_find_has(a, pat);
    let s = a + pat + b;
    assert(s.take(a.len() as int) =~= a);
    assert(s.skip((a.len() + pat.len()) as int) =~= b);
}

/// What is left of a text once a pattern was stripped does not begin with it, and the
/// text is that with copies of the pattern before it.
pub proof fn law_stripped(s: Seq<char>, pat: Seq<char>)
    requires
        pat.len() > 0,
    ensures
        !pat.is_prefix_of(stripped(s, pat)),
        exists|n: nat| s == #[trigger] repeated(pat, n) + stripped(s, pat),
    decreases s.len(),
{
    if pat.is_prefix_of(s) {
        let rest = s.skip(pat.len() as int);
        law_stripped(rest, pat);
        let n = choose|n: nat| rest == #[trigger] repeated(pat, n) + stripped(rest, pat);
        lemma_repeated_front(pat, n);
        assert(s =~= pat + rest);
        assert(s =~= repeated(pat, n + 1) + stripped(s, pat));
    } else {
        assert(s =~= repeated(pat, 0) + stripped(s, pat));
    }
}

proof fn lemma_repeated_front(pat: Seq<char>, n: nat)
    ensures
        repeated(pat, n + 1) == pat + repeated(pat, n),
    decreases n,
{
    if n > 0 {
        lemma_repeated_front(pat, (n - 1) as nat);
        assert(repeated(pat, n + 1) =~= pat + repeated(pat, n));
    } else {
        reveal_with_fuel(repeated, 2);
        assert(repeated(pat, 1) =~= pat + repeated(pat, 0));
    }
}

/// A text that is repeated is so many times as long, and each copy of it is the text.
pub proof fn law_repeated(s: Seq<char>, n: nat)
    ensures
        repeated(s, n).len() == n * s.len(),
        forall|k: int| 0 <= k < n ==> #[trigger] occurs_at(repeated(s, n), s, k * s.len()),
    decreases n,
{
    if n > 0 {
        let m = (n - 1) as nat;
        law_repeated(s, m);
        let all = repeated(s, n);
        let l = s.len() as int;
        assert(n * l == m * l + l) by (nonlinear_arith)
            requires
                n == m + 1,
        ;
        assert forall|k: int| 0 <= k < n implies #[trigger] occurs_at(all, s, k * s.len()) by {
            if k < m {
                assert(occurs_at(repeated(s, m), s, k * s.len()));
                assert(all.subrange(k * l, k * l + l) =~= repeated(s, m).subrange(
                    k * l,
                    k * l + l,
                ));
            } else {
                assert(all.subrange(m * l, m * l + l) =~= s);
            }
        }
    } else {
        assert(n * s.len() == 0) by (nonlinear_arith)
            requires
                n == 0,
        ;
    }
}

/// To replace single characters in a text is to replace them in its parts.
pub proof fn law_replaced_in_parts(a: Seq<char>, b: Seq<char>, c: char, with: Seq<char>)
    ensures
        replaced(a + b, seq![c], with) == replaced(a, seq![c], with) + replaced(b, seq![c], with),
        replaced(seq![c], seq![c], with) == with,
        forall|d: char| d != c ==> #[trigger] replaced(seq![d], seq![c], with) == seq![d],
    decreases a.len(),
{
    assert forall|d: char| d != c implies #[trigger] replaced(seq![d], seq![c], with) == seq![d] by {
        lemma_replaced_head(d, Seq::empty(), c, with);
        assert(seq![d] + Seq::<char>::empty() =~= seq![d]);
        assert(replaced(Seq::<char>::empty(), seq![c], with) =~= Seq::<char>::empty());
    }
    lemma_replaced_head(c, Seq::empty(), c, with);
    assert(seq![c] + Seq::<char>::empty() =~= seq![c]);
    assert(with + replaced(Seq::<char>::empty(), seq![c], with) =~= with);
    if a.len() == 0 {
        assert(a + b =~= b);
        assert(replaced(a, seq![c], with) + replaced(b, seq![c], with) =~= replaced(
            b,
            seq![c],
            with,
        ));
    } else {
        let t = a.drop_first();
        law_replaced_in_parts(t, b, c, with);
        lemma_replaced_head(a[0], t, c, with);
        lemma_replaced_head(a[0], t + b, c, with);
        assert(a =~= seq![a[0]] + t);
        assert(a + b =~= seq![a[0]] + (t + b));
        assert(replaced(a + b, seq![c], with) =~= replaced(a, seq![c], with) + replaced(
            b,
            seq![c],
            with,
        ));
    }
}

proof fn lemma_replaced_head(x: char, t: Seq<char>, c: char, with: Seq<char>)
    ensures
        replaced(seq![x] + t, seq![c], with) == (if x == c {
            with
        } else {
            seq![x]
        }) + replaced(t, seq![c], with),
{
    let s = seq![x] + t;
    assert(s.subrange(0, 1) =~= seq![x]);
    assert(seq![x][0] == x && seq![c][0] == c);
    lemma_replaced_shift(seq![x], t, seq![c], with, 0);
}

} // verus!
