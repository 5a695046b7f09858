//! Text as sequences of characters: the operations that the rest of the crate
//! is stated and built on.

use vstd::prelude::*;
use vstd::string::*;
use vstd::utf8::*;

verus! {

/// `String::push` appends one character.
pub assume_specification[ String::push ](s: &mut String, ch: char)
    ensures
        final(s)@ == old(s)@.push(ch),
;

/// The characters of the strings of a vector.
pub open spec fn texts(v: Seq<String>) -> Seq<Seq<char>> {
    v.map_values(|s: String| s@)
}

/// The texts of a vector with one more string.
pub broadcast proof fn lemma_texts_push(v: Seq<String>, s: String)
    ensures
        #[trigger] texts(v.push(s)) == texts(v).push(s@),
{
    assert(texts(v.push(s)) =~= texts(v).push(s@));
}

/// The characters of a string, in order.
pub fn to_chars(s: &str) -> (r: Vec<char>)
    ensures
        r@ == s@,
{
    let mut out: Vec<char> = Vec::new();
    for c in it: s.chars()
        invariant
            it.seq() == s@,
            out@ == s@.take(it.index() as int),
    {
        out.push(c);
        assert(out@ =~= s@.take(it.index() + 1));
    }
    assert(out@ =~= s@);
    out
}

/// The string of the characters from `lo` up to `hi`.
pub fn from_chars(v: &Vec<char>, lo: usize, hi: usize) -> (r: String)
    requires
        lo <= hi <= v@.len(),
    ensures
        r@ == v@.subrange(lo as int, hi as int),
{
    let mut out: String = String::new();
    let mut i: usize = lo;
    while i < hi
        invariant
            lo <= i <= hi <= v@.len(),
            out@ =~= v@.subrange(lo as int, i as int),
        decreases hi - i,
    {
        out.push(v[i]);
        i += 1;
    }
    out
}

/// The text `s` as a new string.
pub fn owned(s: &str) -> (r: String)
    ensures
        r@ == s@,
{
    s.to_owned()
}

/// Whether two strings hold the same characters.
pub fn same(a: &str, b: &str) -> (r: bool)
    ensures
        r == (a@ == b@),
{
    let x: &[u8] = a.as_bytes();
    let y: &[u8] = b.as_bytes();
    if x.len() != y.len() {
        return false;
    }
    let n: usize = x.len();
    let mut i: usize = 0;
    while i < n
        invariant
            x@ == encode_utf8(a@),
            y@ == encode_utf8(b@),
            n == x@.len() == y@.len(),
            i <= n,
            forall|j: int| 0 <= j < i ==> x@[j] == y@[j],
        decreases n - i,
    {
        if x[i] != y[i] {
            return false;
        }
        i += 1;
    }
    proof {
        assert(x@ =~= y@);
        encode_utf8_decode_utf8(a@);
        encode_utf8_decode_utf8(b@);
    }
    true
}

// ---------------------------------------------------------------------------
// Classes of characters and runs of them
// ---------------------------------------------------------------------------

/// A set of characters that a run can be made of.
#[derive(Clone, Copy)]
pub enum CharClass {
    /// Unicode white space.
    Space,
    /// ASCII punctuation.
    Punctuation,
    /// One character.
    Just(char),
}

/// The characters with the Unicode property `White_Space`.
pub open spec fn is_space(c: char) -> bool {
    let n = c as u32;
    ||| 0x9 <= n <= 0xd
    ||| n == 0x20
    ||| n == 0x85
    ||| n == 0xa0
    ||| n == 0x1680
    ||| 0x2000 <= n <= 0x200a
    ||| n == 0x2028
    ||| n == 0x2029
    ||| n == 0x202f
    ||| n == 0x205f
    ||| n == 0x3000
}

/// The printable ASCII characters that are neither letters, digits nor the space.
pub open spec fn is_punctuation(c: char) -> bool {
    let n = c as u32;
    ||| 0x21 <= n <= 0x2f
    ||| 0x3a <= n <= 0x40
    ||| 0x5b <= n <= 0x60
    ||| 0x7b <= n <= 0x7e
}

/// Whether `c` belongs to the class `k`.
pub open spec fn in_class(k: CharClass, c: char) -> bool {
    match k {
        CharClass::Space => is_space(c),
        CharClass::Punctuation => is_punctuation(c),
        CharClass::Just(d) => c == d,
    }
}

impl CharClass {
    /// Whether the class holds `c`.
    pub fn holds(&self, c: char) -> (r: bool)
        ensures
            r == in_class(*self, c),
    {
        match *self {
            CharClass::Space => {
                let n: u32 = c as u32;
                (0x9 <= n && n <= 0xd) || n == 0x20 || n == 0x85 || n == 0xa0 || n == 0x1680
                    || (0x2000 <= n && n <= 0x200a) || n == 0x2028 || n == 0x2029 || n == 0x202f
                    || n == 0x205f || n == 0x3000
            },
            CharClass::Punctuation => {
                let n: u32 = c as u32;
                (0x21 <= n && n <= 0x2f) || (0x3a <= n && n <= 0x40) || (0x5b <= n && n <= 0x60)
                    || (0x7b <= n && n <= 0x7e)
            },
            CharClass::Just(d) => c == d,
        }
    }
}

/// The first position from `i` on whose character is outside `k`, or the length.
pub open spec fn run_end(s: Seq<char>, k: CharClass, i: int) -> int
    decreases s.len() - i,
{
    if i >= s.len() {
        s.len() as int
    } else if in_class(k, s[i]) {
        run_end(s, k, i + 1)
    } else {
        i
    }
}

/// The first position from `i` on whose character is in `k`, or the length.
pub open spec fn next_in(s: Seq<char>, k: CharClass, i: int) -> int
    decreases s.len() - i,
{
    if i >= s.len() {
        s.len() as int
    } else if in_class(k, s[i]) {
        i
    } else {
        next_in(s, k, i + 1)
    }
}

/// The position before `j` where the run of characters of `k` that ends there begins.
pub open spec fn run_start(s: Seq<char>, k: CharClass, j: int) -> int
    decreases j,
{
    if j <= 0 {
        0
    } else if in_class(k, s[j - 1]) {
        run_start(s, k, j - 1)
    } else {
        j
    }
}

/// `s` without the characters of `k` at its start.
pub open spec fn trim_start_of(s: Seq<char>, k: CharClass) -> Seq<char> {
    s.skip(run_end(s, k, 0))
}

/// `s` without the characters of `k` at its end.
pub open spec fn trim_end_of(s: Seq<char>, k: CharClass) -> Seq<char> {
    s.take(run_start(s, k, s.len() as int))
}

/// `s` without the characters of `k` at both ends.
pub open spec fn trim_of(s: Seq<char>, k: CharClass) -> Seq<char> {
    trim_end_of(trim_start_of(s, k), k)
}

/// `s` without white space at both ends.
pub open spec fn trimmed(s: Seq<char>) -> Seq<char> {
    trim_of(s, CharClass::Space)
}

/// Whether `s` holds nothing but white space.
pub open spec fn blank(s: Seq<char>) -> bool {
    trimmed(s).len() == 0
}

/// What a run holds, and what ends it.
pub proof fn lemma_run_end(s: Seq<char>, k: CharClass, i: int)
    requires
        0 <= i <= s.len(),
    ensures
        i <= run_end(s, k, i) <= s.len(),
        forall|j: int| i <= j < run_end(s, k, i) ==> in_class(k, #[trigger] s[j]),
        run_end(s, k, i) < s.len() ==> !in_class(k, s[run_end(s, k, i)]),
    decreases s.len() - i,
{
    if i < s.len() && in_class(k, s[i]) {
        lemma_run_end(s, k, i + 1);
    }
}

/// What lies before the next character of a class, and what stands there.
pub proof fn lemma_next_in(s: Seq<char>, k: CharClass, i: int)
    requires
        0 <= i <= s.len(),
    ensures
        i <= next_in(s, k, i) <= s.len(),
        forall|j: int| i <= j < next_in(s, k, i) ==> !in_class(k, #[trigger] s[j]),
        next_in(s, k, i) < s.len() ==> in_class(k, s[next_in(s, k, i)]),
    decreases s.len() - i,
{
    if i < s.len() && !in_class(k, s[i]) {
        lemma_next_in(s, k, i + 1);
    }
}

/// What a run that ends at `j` holds, and what stands before it.
pub proof fn lemma_run_start(s: Seq<char>, k: CharClass, j: int)
    requires
        0 <= j <= s.len(),
    ensures
        0 <= run_start(s, k, j) <= j,
        forall|i: int| run_start(s, k, j) <= i < j ==> in_class(k, #[trigger] s[i]),
        run_start(s, k, j) > 0 ==> !in_class(k, s[run_start(s, k, j) - 1]),
    decreases j,
{
    if j > 0 && in_class(k, s[j - 1]) {
        lemma_run_start(s, k, j - 1);
    }
}

/// A run of `k` that covers `i..m`, ending before `m`'s character, ends at `m`.
proof fn lemma_run_end_is(s: Seq<char>, k: CharClass, i: int, m: int)
    requires
        0 <= i <= m <= s.len(),
        forall|j: int| i <= j < m ==> in_class(k, #[trigger] s[j]),
        m < s.len() ==> !in_class(k, s[m]),
    ensures
        run_end(s, k, i) == m,
    decreases m - i,
{
    if i < m {
        lemma_run_end_is(s, k, i + 1, m);
    }
}

proof fn lemma_run_start_is(s: Seq<char>, k: CharClass, m: int, j: int)
    requires
        0 <= m <= j <= s.len(),
        forall|i: int| m <= i < j ==> in_class(k, #[trigger] s[i]),
        m > 0 ==> !in_class(k, s[m - 1]),
    ensures
        run_start(s, k, j) == m,
    decreases j - m,
{
    if m < j {
        lemma_run_start_is(s, k, m, j - 1);
    }
}

/// What trimming leaves: a stretch of `s` that neither begins nor ends in `k`.
pub proof fn lemma_trim_of(s: Seq<char>, k: CharClass) -> (r: (int, int))
    ensures
        0 <= r.0 <= r.1 <= s.len(),
        trim_of(s, k) == s.subrange(r.0, r.1),
        forall|i: int| 0 <= i < r.0 || r.1 <= i < s.len() ==> in_class(k, #[trigger] s[i]),
        trim_of(s, k).len() > 0 ==> !in_class(k, trim_of(s, k)[0]) && !in_class(
            k,
            trim_of(s, k).last(),
        ),
{
    let a = run_end(s, k, 0);
    lemma_run_end(s, k, 0);
    let t = s.skip(a);
    let b = run_start(t, k, t.len() as int);
    lemma_run_start(t, k, t.len() as int);
    assert(t.take(b) =~= s.subrange(a, a + b));
    assert forall|i: int| a + b <= i < s.len() implies in_class(k, #[trigger] s[i]) by {
        assert(t[i - a] == s[i]);
    }
    (a, a + b)
}

/// The end of the run of `k` at `i` that stays below `hi`.
pub fn skip_run(v: &Vec<char>, k: CharClass, i: usize, hi: usize) -> (r: usize)
    requires
        i <= hi <= v@.len(),
    ensures
        i <= r <= hi,
        r - i == run_end(v@.subrange(i as int, hi as int), k, 0),
{
    let mut j: usize = i;
    while j < hi && k.holds(v[j])
        invariant
            i <= j <= hi <= v@.len(),
            forall|m: int| i <= m < j ==> in_class(k, #[trigger] v@[m]),
        decreases hi - j,
    {
        j += 1;
    }
    proof {
        lemma_run_end_is(v@.subrange(i as int, hi as int), k, 0, j - i);
    }
    j
}

/// The bounds of `v[lo..hi]` without the characters of `k` at both ends.
pub fn trim_range(v: &Vec<char>, k: CharClass, lo: usize, hi: usize) -> (r: (usize, usize))
    requires
        lo <= hi <= v@.len(),
    ensures
        lo <= r.0 <= r.1 <= hi,
        v@.subrange(r.0 as int, r.1 as int) == trim_of(v@.subrange(lo as int, hi as int), k),
{
    let ghost s = v@.subrange(lo as int, hi as int);
    let a: usize = skip_run(v, k, lo, hi);
    let ghost t = trim_start_of(s, k);
    assert(t =~= v@.subrange(a as int, hi as int));
    let mut b: usize = hi;
    while b > a && k.holds(v[b - 1])
        invariant
            lo <= a <= b <= hi <= v@.len(),
            forall|m: int| b <= m < hi ==> in_class(k, #[trigger] v@[m]),
        decreases b,
    {
        b -= 1;
    }
    proof {
        lemma_run_start_is(t, k, b - a, t.len() as int);
        assert(trim_of(s, k) =~= v@.subrange(a as int, b as int));
    }
    (a, b)
}

/// `s` without white space at both ends (`str::trim`).
pub fn trim(s: &str) -> (r: String)
    ensures
        r@ == trimmed(s@),
{
    let v: Vec<char> = to_chars(s);
    let (a, b): (usize, usize) = trim_range(&v, CharClass::Space, 0, v.len());
    assert(v@.subrange(0, v@.len() as int) =~= s@);
    from_chars(&v, a, b)
}

/// Whether `s` holds nothing but white space.
pub fn is_blank(s: &str) -> (r: bool)
    ensures
        r == blank(s@),
{
    let v: Vec<char> = to_chars(s);
    let (a, b): (usize, usize) = trim_range(&v, CharClass::Space, 0, v.len());
    assert(v@.subrange(0, v@.len() as int) =~= s@);
    a == b
}

/// `s` without the characters of `k` at its start.
pub fn trim_start(s: &str, k: CharClass) -> (r: String)
    ensures
        r@ == trim_start_of(s@, k),
{
    let v: Vec<char> = to_chars(s);
    let a: usize = skip_run(&v, k, 0, v.len());
    assert(v@.subrange(0, v@.len() as int) =~= s@);
    let r: String = from_chars(&v, a, v.len());
    assert(r@ =~= trim_start_of(s@, k));
    r
}

// ---------------------------------------------------------------------------
// Pieces
// ---------------------------------------------------------------------------

/// The pieces between the occurrences of `sep`, from position `i` on.
pub open spec fn split_from(s: Seq<char>, sep: char, i: int) -> Seq<Seq<char>>
    decreases s.len() - i,
{
    if i < 0 || i > s.len() {
        seq![]
    } else {
        let j = next_in(s, CharClass::Just(sep), i);
        if i <= j < s.len() {
            seq![s.subrange(i, j)] + split_from(s, sep, j + 1)
        } else {
            seq![s.subrange(i, s.len() as int)]
        }
    }
}

/// The pieces between the occurrences of `sep`: always at least one.
pub open spec fn split(s: Seq<char>, sep: char) -> Seq<Seq<char>> {
    split_from(s, sep, 0)
}

/// `line` without one carriage return at its end.
pub open spec fn without_cr(line: Seq<char>) -> Seq<char> {
    if line.len() > 0 && line.last() == '\r' {
        line.drop_last()
    } else {
        line
    }
}

/// The lines from position `i` on: each ends at a line feed, which may have a
/// carriage return before it, or at the end of the text.
pub open spec fn lines_from(s: Seq<char>, i: int) -> Seq<Seq<char>>
    decreases s.len() - i,
{
    if i < 0 || i >= s.len() {
        seq![]
    } else {
        let j = next_in(s, CharClass::Just('\n'), i);
        if i <= j < s.len() {
            seq![without_cr(s.subrange(i, j))] + lines_from(s, j + 1)
        } else {
            seq![s.subrange(i, s.len() as int)]
        }
    }
}

/// The lines of a text.
pub open spec fn lines_of(s: Seq<char>) -> Seq<Seq<char>> {
    lines_from(s, 0)
}

/// The words, which white space parts, from position `i` on.
pub open spec fn words_from(s: Seq<char>, i: int) -> Seq<Seq<char>>
    decreases s.len() - i,
{
    if i < 0 {
        seq![]
    } else {
        let a = run_end(s, CharClass::Space, i);
        let b = next_in(s, CharClass::Space, a);
        if i <= a < b <= s.len() {
            seq![s.subrange(a, b)] + words_from(s, b)
        } else {
            seq![]
        }
    }
}

/// The words of a text.
pub open spec fn words_of(s: Seq<char>) -> Seq<Seq<char>> {
    words_from(s, 0)
}

/// The pieces with `sep` between each two.
pub open spec fn joined(pieces: Seq<Seq<char>>, sep: Seq<char>) -> Seq<char>
    decreases pieces.len(),
{
    if pieces.len() == 0 {
        seq![]
    } else if pieces.len() == 1 {
        pieces[0]
    } else {
        joined(pieces.drop_last(), sep) + sep + pieces.last()
    }
}

/// The first position from `i` on that holds a character of `k`, or the length.
pub fn find_in(v: &Vec<char>, k: CharClass, i: usize) -> (r: usize)
    requires
        i <= v@.len(),
    ensures
        i <= r <= v@.len(),
        r == next_in(v@, k, i as int),
{
    let mut j: usize = i;
    while j < v.len() && !k.holds(v[j])
        invariant
            i <= j <= v@.len(),
            next_in(v@, k, i as int) == next_in(v@, k, j as int),
        decreases v@.len() - j,
    {
        j += 1;
    }
    j
}

/// The pieces between the occurrences of `sep` (`str::split`).
pub fn split_on(s: &str, sep: char) -> (r: Vec<String>)
    ensures
        texts(r@) == split(s@, sep),
{
    let v: Vec<char> = to_chars(s);
    let mut out: Vec<String> = Vec::new();
    let mut i: usize = 0;
    assert(texts(out@) =~= seq![]);
    loop
        invariant
            v@ == s@,
            i <= v@.len(),
            texts(out@) + split_from(s@, sep, i as int) =~= split(s@, sep),
        decreases v@.len() - i,
    {
        let j: usize = find_in(&v, CharClass::Just(sep), i);
        let piece: String = from_chars(&v, i, j);
        let ghost before = out@;
        out.push(piece);
        proof {
            lemma_texts_push(before, piece);
        }
        if j == v.len() {
            assert(texts(out@) =~= split(s@, sep));
            return out;
        }
        i = j + 1;
    }
}

/// The lines of a text (`str::lines`).
pub fn lines(s: &str) -> (r: Vec<String>)
    ensures
        texts(r@) == lines_of(s@),
{
    let v: Vec<char> = to_chars(s);
    let mut out: Vec<String> = Vec::new();
    let mut i: usize = 0;
    assert(texts(out@) =~= seq![]);
    while i < v.len()
        invariant
            v@ == s@,
            i <= v@.len(),
            texts(out@) + lines_from(s@, i as int) =~= lines_of(s@),
        decreases v@.len() - i,
    {
        let j: usize = find_in(&v, CharClass::Just('\n'), i);
        let ghost before = out@;
        let mut e: usize = j;
        if j < v.len() && j > i && v[j - 1] == '\r' {
            e = j - 1;
        }
        let line: String = from_chars(&v, i, e);
        out.push(line);
        proof {
            lemma_texts_push(before, line);
            if j < v@.len() {
                assert(line@ =~= without_cr(v@.subrange(i as int, j as int)));
            }
        }
        if j == v.len() {
            assert(texts(out@) =~= lines_of(s@));
            return out;
        }
        i = j + 1;
    }
    assert(lines_from(s@, i as int) =~= seq![]);
    out
}

/// The words of a text (`str::split_whitespace`).
pub fn words(s: &str) -> (r: Vec<String>)
    ensures
        texts(r@) == words_of(s@),
{
    let v: Vec<char> = to_chars(s);
    let mut out: Vec<String> = Vec::new();
    let mut i: usize = 0;
    assert(texts(out@) =~= seq![]);
    loop
        invariant
            v@ == s@,
            i <= v@.len(),
            texts(out@) + words_from(s@, i as int) =~= words_of(s@),
        decreases v@.len() - i,
    {
        let a: usize = skip_run_to_end(&v, CharClass::Space, i);
        let b: usize = find_in(&v, CharClass::Space, a);
        if a == b {
            assert(words_from(s@, i as int) =~= seq![]);
            return out;
        }
        let word: String = from_chars(&v, a, b);
        let ghost before = out@;
        out.push(word);
        proof {
            lemma_texts_push(before, word);
        }
        i = b;
    }
}

/// The end of the run of `k` at `i`.
pub fn skip_run_to_end(v: &Vec<char>, k: CharClass, i: usize) -> (r: usize)
    requires
        i <= v@.len(),
    ensures
        i <= r <= v@.len(),
        r == run_end(v@, k, i as int),
{
    let mut j: usize = i;
    while j < v.len() && k.holds(v[j])
        invariant
            i <= j <= v@.len(),
            run_end(v@, k, i as int) == run_end(v@, k, j as int),
        decreases v@.len() - j,
    {
        j += 1;
    }
    j
}

/// The pieces with `sep` between each two (`[String]::join`).
pub fn join(pieces: &Vec<String>, sep: &str) -> (r: String)
    ensures
        r@ == joined(texts(pieces@), sep@),
{
    let mut out: String = String::new();
    let mut i: usize = 0;
    let ghost all = texts(pieces@);
    assert(joined(all.take(0), sep@) =~= seq![]);
    while i < pieces.len()
        invariant
            all == texts(pieces@),
            i <= pieces@.len(),
            out@ == joined(all.take(i as int), sep@),
        decreases pieces@.len() - i,
    {
        if i > 0 {
            out.append(sep);
        }
        out.append(pieces[i].as_str());
        proof {
            assert(all.take(i + 1).drop_last() =~= all.take(i as int));
            assert(all.take(i + 1).last() == pieces@[i as int]@);
            if i == 0 {
                assert(out@ =~= joined(all.take(i + 1), sep@));
            }
        }
        i += 1;
    }
    assert(all.take(i as int) =~= all);
    out
}

// ---------------------------------------------------------------------------
// Laws
// ---------------------------------------------------------------------------

/// ASCII punctuation is what is printed of ASCII, without blanks, letters and digits; of
/// ASCII, the blank and the five control characters that move on are white space.
pub proof fn law_ascii_classes(c: char)
    ensures
        in_class(CharClass::Punctuation, c) <==> '!' <= c <= '~' && !('0' <= c <= '9') && !('a' <= c
            <= 'z') && !('A' <= c <= 'Z'),
        c <= '\u{7f}' ==> (in_class(CharClass::Space, c) <==> c == ' ' || c == '\t' || c == '\n' || c
            == '\u{b}' || c == '\u{c}' || c == '\r'),
        forall|d: char| in_class(CharClass::Just(d), c) <==> c == d,
{
}

/// What is taken off the start of a text is all of the class, and what is left does
/// not begin with it.
pub proof fn law_trim_start(s: Seq<char>, k: CharClass)
    ensures
        exists|n: int|
            {
                &&& 0 <= n <= s.len()
                &&& trim_start_of(s, k) == #[trigger] s.skip(n)
                &&& forall|i: int| 0 <= i < n ==> in_class(k, #[trigger] s[i])
                &&& n < s.len() ==> !in_class(k, s[n])
            },
{
    lemma_run_end(s, k, 0);
    assert(trim_start_of(s, k) == s.skip(run_end(s, k, 0)));
}

/// A trimmed text is a stretch of the text with nothing but white space around it, and
/// neither begins nor ends in white space. A text is blank where it holds nothing else.
pub proof fn law_trimmed(s: Seq<char>)
    ensures
        exists|lo: int, hi: int|
            {
                &&& 0 <= lo <= hi <= s.len()
                &&& trimmed(s) == #[trigger] s.subrange(lo, hi)
                &&& forall|i: int|
                    0 <= i < lo || hi <= i < s.len() ==> is_space(#[trigger] s[i])
                &&& lo < hi ==> !is_space(s[lo]) && !is_space(s[hi - 1])
            },
        blank(s) <==> forall|i: int| 0 <= i < s.len() ==> is_space(#[trigger] s[i]),
{
    let (lo, hi) = lemma_trim_of(s, CharClass::Space);
    assert(trimmed(s) == s.subrange(lo, hi));
    if lo < hi {
        assert(trimmed(s)[0] == s[lo]);
        assert(trimmed(s).last() == s[hi - 1]);
    }
}

} // verus!
