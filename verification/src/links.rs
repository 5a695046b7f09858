//! Addresses of the site: percent-encoding, and links made relative to the page
//! that they stand on.

use crate::number::upper_digit;
use crate::number::upper_digit_char;
use crate::pattern::{
    contains, ends_with, has, repeat, repeated, starts_with, strip, stripped,
};
use crate::pieces::{
    are_pieces, lemma_parted_concat, lemma_parted_joined, lemma_parted_one, lemma_parted_pieces,
    lemma_split_concat, lemma_split_nonempty, lemma_split_single, parted, parts_on,
};
use crate::text::{
    find_in, from_chars, in_class, join, joined, lemma_next_in, lemma_texts_push, next_in, owned,
    same, split, split_on, texts, to_chars, CharClass,
};
use vstd::prelude::*;
use vstd::string::*;
use vstd::utf8::*;

verus! {

// ---------------------------------------------------------------------------
// Percent-encoding
// ---------------------------------------------------------------------------

/// The value of a hexadecimal digit.
pub open spec fn hex_value(b: u8) -> Option<int> {
    if 48 <= b <= 57 {
        Some(b - 48)
    } else if 65 <= b <= 70 {
        Some(b - 55)
    } else if 97 <= b <= 102 {
        Some(b - 87)
    } else {
        None
    }
}

/// The byte that two characters after a percent sign stand for: two hexadecimal
/// digits, or a plus sign and one.
pub open spec fn escaped_byte(hi: u8, lo: u8) -> Option<u8> {
    match (hex_value(hi), hex_value(lo)) {
        (Some(h), Some(l)) => Some((h * 16 + l) as u8),
        (None, Some(l)) => if hi == 43 {
            Some(l as u8)
        } else {
            None
        },
        _ => None,
    }
}

/// Whether an escape begins at position `i`.
pub open spec fn escape_at(b: Seq<u8>, i: int) -> bool {
    b[i] == 37 && i + 2 < b.len() && escaped_byte(b[i + 1], b[i + 2]) is Some
}

/// The bytes from `i` on, escapes resolved, each as the character of its number.
pub open spec fn decoded_from(b: Seq<u8>, i: int) -> Seq<char>
    decreases b.len() - i,
{
    if i < 0 || i >= b.len() {
        seq![]
    } else if escape_at(b, i) {
        seq![escaped_byte(b[i + 1], b[i + 2])->0 as char] + decoded_from(b, i + 3)
    } else {
        seq![b[i] as char] + decoded_from(b, i + 1)
    }
}

/// The text behind a percent-encoded address.
pub open spec fn url_decoded(s: Seq<char>) -> Seq<char> {
    decoded_from(encode_utf8(s), 0)
}

/// The value of a hexadecimal digit.
fn hex_value_of(b: u8) -> (r: Option<u8>)
    ensures
        match r {
            Some(v) => hex_value(b) == Some(v as int) && v < 16,
            None => hex_value(b) is None,
        },
{
    if 48 <= b && b <= 57 {
        Some(b - 48)
    } else if 65 <= b && b <= 70 {
        Some(b - 55)
    } else if 97 <= b && b <= 102 {
        Some(b - 87)
    } else {
        None
    }
}

/// The byte that `hi` and `lo` stand for after a percent sign.
fn unescape(hi: u8, lo: u8) -> (r: Option<u8>)
    ensures
        r == escaped_byte(hi, lo),
{
    match (hex_value_of(hi), hex_value_of(lo)) {
        (Some(h), Some(l)) => Some(h * 16 + l),
        (None, Some(l)) => if hi == 43 {
            Some(l)
        } else {
            None
        },
        _ => None,
    }
}

/// Resolves the escapes of an address.
///
/// Each byte becomes the character of its number, so what is not ASCII comes out
/// byte by byte.
pub fn url_decode(s: &str) -> (r: String)
    ensures
        r@ == url_decoded(s@),
{
    let bytes: &[u8] = s.as_bytes();
    let n: usize = bytes.len();
    let mut out: String = String::new();
    let mut i: usize = 0;
    while i < n
        invariant
            n == bytes@.len(),
            bytes@ == encode_utf8(s@),
            i <= n,
            out@ + decoded_from(bytes@, i as int) =~= url_decoded(s@),
        decreases n - i,
    {
        let mut resolved: Option<u8> = None;
        if bytes[i] == 37 && n - i > 2 {
            resolved = unescape(bytes[i + 1], bytes[i + 2]);
        }
        match resolved {
            Some(b) => {
                out.push(b as char);
                i += 3;
            },
            None => {
                out.push(bytes[i] as char);
                i += 1;
            },
        }
    }
    out
}

/// The bytes that an address holds as they are: ASCII letters and digits, and
/// `-`, `_`, `.`, `/` and `~`.
pub open spec fn is_plain_byte(b: u8) -> bool {
    ||| 48 <= b <= 57
    ||| 65 <= b <= 90
    ||| 97 <= b <= 122
    ||| b == 45
    ||| b == 95
    ||| b == 46
    ||| b == 47
    ||| b == 126
}

/// One byte in an address.
pub open spec fn encoded_byte(b: u8) -> Seq<char> {
    if is_plain_byte(b) {
        seq![b as char]
    } else {
        seq!['%', upper_digit(b as int / 16), upper_digit(b as int % 16)]
    }
}

/// The bytes in an address.
pub open spec fn encoded_bytes(b: Seq<u8>) -> Seq<char>
    decreases b.len(),
{
    if b.len() == 0 {
        seq![]
    } else {
        encoded_bytes(b.drop_last()) + encoded_byte(b.last())
    }
}

/// A text percent-encoded by the bytes of its UTF-8 form.
pub open spec fn percent_encoded(s: Seq<char>) -> Seq<char> {
    encoded_bytes(encode_utf8(s))
}

/// Percent-encodes a text.
pub fn percent_encode(s: &str) -> (r: String)
    ensures
        r@ == percent_encoded(s@),
{
    let bytes: &[u8] = s.as_bytes();
    let n: usize = bytes.len();
    let mut out: String = String::new();
    let mut i: usize = 0;
    assert(encoded_bytes(bytes@.take(0)) =~= seq![]);
    while i < n
        invariant
            n == bytes@.len(),
            i <= n,
            out@ =~= encoded_bytes(bytes@.take(i as int)),
        decreases n - i,
    {
        let b: u8 = bytes[i];
        assert(bytes@.take(i + 1).drop_last() =~= bytes@.take(i as int));
        if (48 <= b && b <= 57) || (65 <= b && b <= 90) || (97 <= b && b <= 122) || b == 45
            || b == 95 || b == 46 || b == 47 || b == 126 {
            out.push(b as char);
        } else {
            out.push('%');
            out.push(upper_digit_char(b / 16));
            out.push(upper_digit_char(b % 16));
        }
        i += 1;
    }
    assert(bytes@.take(i as int) =~= bytes@);
    out
}

/// Each byte as the character of its number.
pub open spec fn bytes_as_chars(b: Seq<u8>) -> Seq<char> {
    b.map_values(|x: u8| x as char)
}

proof fn lemma_encoded_ascii(b: Seq<u8>)
    ensures
        is_ascii_chars(encoded_bytes(b)),
    decreases b.len(),
{
    if b.len() > 0 {
        lemma_encoded_ascii(b.drop_last());
    }
}

/// Decoding what stands before position `m` does not depend on what follows an
/// escape-free cut there.
proof fn lemma_decode_append(a: Seq<u8>, t: Seq<u8>, i: int, b: u8)
    requires
        0 <= i <= a.len(),
        t.len() > 0,
        t == encoded_byte(b).map_values(|c: char| c as u8),
        forall|j: int| i <= j < a.len() && #[trigger] a[j] == 37 ==> j + 2 < a.len(),
    ensures
        decoded_from(a + t, i) == decoded_from(a, i).push(b as char),
    decreases a.len() - i,
{
    let s = a + t;
    if i == a.len() {
        assert(forall|j: int| 0 <= j < t.len() ==> s[a.len() + j] == t[j]);
        if is_plain_byte(b) {
            assert(t =~= seq![b]);
            assert(!escape_at(s, i));
            assert(decoded_from(s, i + 1) =~= seq![]);
        } else {
            assert(t.len() == 3);
            assert(t[0] == 37);
            assert(t[1] == upper_digit(b as int / 16) as u8);
            assert(t[2] == upper_digit(b as int % 16) as u8);
            assert(escaped_byte(t[1], t[2]) == Some(b));
            assert(decoded_from(s, i + 3) =~= seq![]);
        }
        assert(decoded_from(s, i) =~= decoded_from(a, i).push(b as char));
    } else {
        assert(s[i] == a[i]);
        if a[i] == 37 {
            assert(s[i + 1] == a[i + 1]);
            assert(s[i + 2] == a[i + 2]);
        }
        if escape_at(a, i) {
            lemma_decode_append(a, t, i + 3, b);
        } else {
            lemma_decode_append(a, t, i + 1, b);
        }
        assert(decoded_from(s, i) =~= decoded_from(a, i).push(b as char));
    }
}

proof fn lemma_decode_encoded(b: Seq<u8>)
    ensures
        ({
            let e = encoded_bytes(b).map_values(|c: char| c as u8);
            &&& decoded_from(e, 0) == bytes_as_chars(b)
            &&& forall|j: int| 0 <= j < e.len() && #[trigger] e[j] == 37 ==> j + 2 < e.len()
        }),
    decreases b.len(),
{
    let f = |c: char| c as u8;
    let e = encoded_bytes(b).map_values(f);
    if b.len() == 0 {
        assert(decoded_from(e, 0) =~= bytes_as_chars(b));
    } else {
        lemma_decode_encoded(b.drop_last());
        let a = encoded_bytes(b.drop_last()).map_values(f);
        let t = encoded_byte(b.last()).map_values(f);
        assert(e =~= a + t);
        assert forall|j: int| 0 <= j < e.len() && #[trigger] e[j] == 37 implies j + 2 < e.len() by {
            if j < a.len() {
                assert(a[j] == 37);
            } else {
                assert(t[j - a.len()] == 37);
                if !is_plain_byte(b.last()) {
                    assert(t[1] == upper_digit(b.last() as int / 16) as u8);
                    assert(t[2] == upper_digit(b.last() as int % 16) as u8);
                }
            }
        }
        lemma_decode_append(a, t, 0, b.last());
        assert(decoded_from(e, 0) =~= bytes_as_chars(b));
    }
}

/// Decoding a percent-encoded text gives the bytes of its UTF-8 form back, each
/// as the character of its number.
pub proof fn law_decode_of_encode(s: Seq<char>)
    ensures
        url_decoded(percent_encoded(s)) == bytes_as_chars(encode_utf8(s)),
{
    let b = encode_utf8(s);
    let e = encoded_bytes(b);
    lemma_encoded_ascii(b);
    is_ascii_chars_encode_utf8(e);
    assert(encode_utf8(e) =~= e.map_values(|c: char| c as u8));
    lemma_decode_encoded(b);
}

/// An ASCII text comes back whole from percent-encoding and decoding.
pub proof fn law_decode_of_encode_ascii(s: Seq<char>)
    requires
        is_ascii_chars(s),
    ensures
        url_decoded(percent_encoded(s)) == s,
{
    law_decode_of_encode(s);
    is_ascii_chars_encode_utf8(s);
    assert forall|i: int| 0 <= i < s.len() implies bytes_as_chars(encode_utf8(s))[i] == s[i] by {
        assert(encode_utf8(s)[i] == s[i] as u8);
    }
    assert(bytes_as_chars(encode_utf8(s)) =~= s);
}

// ---------------------------------------------------------------------------
// Paths and relative links
// ---------------------------------------------------------------------------

/// The names in a path.
pub open spec fn path_parts(path: Seq<char>) -> Seq<Seq<char>> {
    parted(path, '/')
}

/// What follows the last slash of a path, or all of it.
pub open spec fn last_part(path: Seq<char>) -> Seq<char> {
    split(path, '/').last()
}

/// The number of names below the content root in the path of a directory.
pub open spec fn depth_below_root(dir: Seq<char>) -> nat {
    split(dir, '/').filter(|p: Seq<char>| p.len() > 0 && p != "md"@).len()
}

/// The length of the longest common beginning.
pub open spec fn common_len(a: Seq<Seq<char>>, b: Seq<Seq<char>>) -> nat
    decreases a.len(),
{
    if a.len() > 0 && b.len() > 0 && a[0] == b[0] {
        1 + common_len(a.drop_first(), b.drop_first())
    } else {
        0
    }
}

/// The way from the directory `from` to the file `to`: one step up for each name
/// of `from` beyond their common beginning, and down the names that `to` has
/// beyond it.
pub open spec fn relative_path(from: Seq<Seq<char>>, to: Seq<Seq<char>>) -> Seq<char> {
    let common = common_len(to, from);
    repeated("../"@, (from.len() - common) as nat) + joined(to.skip(common as int), "/"@)
}

/// `s` up to its first question mark.
pub open spec fn before_query(s: Seq<char>) -> Seq<char> {
    s.take(next_in(s, CharClass::Just('?'), 0))
}

/// Whether an address names the site itself.
pub open spec fn is_site_url(url: Seq<char>) -> bool {
    "https://htl.dev"@.is_prefix_of(url) || "https://www.htl.dev"@.is_prefix_of(url)
}

/// The path that an address or a link asks for.
pub open spec fn url_path(url: Seq<char>) -> Seq<char> {
    if is_site_url(url) {
        url_decoded(
            before_query(stripped(stripped(url, "https://www.htl.dev"@), "https://htl.dev"@)),
        )
    } else if "/"@.is_prefix_of(url) {
        url_decoded(before_query(url))
    } else {
        url_decoded(url)
    }
}

/// Whether a path names a markdown file of the site.
pub open spec fn is_page_path(path: Seq<char>) -> bool {
    ".md"@.is_suffix_of(path) && "/md/"@.is_prefix_of(path)
}

/// A link of a page in the directory `dir`, as it stands in the local mirror.
pub open spec fn normalized_url(url: Seq<char>, dir: Seq<char>, is_asset: bool) -> Seq<char> {
    let path = url_path(url);
    if url.len() == 0 || ("http"@.is_prefix_of(url) && !is_site_url(url)) {
        url
    } else if is_asset && has(path, "/md/assets/"@) {
        repeated("../"@, depth_below_root(dir)) + "assets/"@ + last_part(path)
    } else if is_page_path(path) {
        relative_path(path_parts(dir), path_parts(path))
    } else {
        url
    }
}

/// The names in a path.
pub fn parts_of(path: &str) -> (r: Vec<String>)
    ensures
        texts(r@) == path_parts(path@),
{
    parts_on(path, '/')
}

/// The number of names below the content root in the path of a directory.
pub fn depth_of(dir: &str) -> (r: usize)
    ensures
        r == depth_below_root(dir@),
{
    let pieces: Vec<String> = split_on(dir, '/');
    let ghost all = texts(pieces@);
    let ghost pred = |p: Seq<char>| p.len() > 0 && p != "md"@;
    let mut n: usize = 0;
    let mut i: usize = 0;
    assert(all.take(0).filter(pred).len() == 0);
    while i < pieces.len()
        invariant
            all == texts(pieces@),
            pred == (|p: Seq<char>| p.len() > 0 && p != "md"@),
            n <= i <= pieces@.len(),
            n == all.take(i as int).filter(pred).len(),
        decreases pieces@.len() - i,
    {
        assert(all.take(i + 1).drop_last() =~= all.take(i as int));
        assert(all.take(i + 1).last() == pieces@[i as int]@);
        proof {
            reveal(Seq::filter);
        }
        if !pieces[i].as_str().is_empty() && !same(pieces[i].as_str(), "md") {
            n += 1;
        }
        i += 1;
    }
    assert(all.take(i as int) =~= all);
    n
}

/// What follows the last slash of a path, or all of it.
pub fn last_part_of(path: &str) -> (r: String)
    ensures
        r@ == last_part(path@),
{
    let pieces: Vec<String> = split_on(path, '/');
    proof {
        lemma_split_nonempty(path@, '/', 0);
    }
    let r: String = pieces[pieces.len() - 1].clone();
    assert(r@ == texts(pieces@).last());
    r
}

proof fn lemma_common_len(a: Seq<Seq<char>>, b: Seq<Seq<char>>)
    ensures
        common_len(a, b) <= a.len(),
        common_len(a, b) <= b.len(),
        a.take(common_len(a, b) as int) == b.take(common_len(a, b) as int),
        common_len(a, b) < a.len() && common_len(a, b) < b.len() ==> a[common_len(a, b) as int]
            != b[common_len(a, b) as int],
    decreases a.len(),
{
    let n = common_len(a, b) as int;
    if a.len() > 0 && b.len() > 0 && a[0] == b[0] {
        let x = a.drop_first();
        let y = b.drop_first();
        lemma_common_len(x, y);
        assert(a.take(n) =~= seq![a[0]] + x.take(n - 1));
        assert(b.take(n) =~= seq![b[0]] + y.take(n - 1));
        if n < a.len() && n < b.len() {
            assert(a[n] == x[n - 1]);
            assert(b[n] == y[n - 1]);
        }
    } else {
        assert(a.take(n) =~= b.take(n));
    }
}

proof fn lemma_common_len_is(a: Seq<Seq<char>>, b: Seq<Seq<char>>, n: int)
    requires
        0 <= n <= a.len(),
        n <= b.len(),
        forall|i: int| 0 <= i < n ==> #[trigger] a[i] == b[i],
        n < a.len() && n < b.len() ==> a[n] != b[n],
    ensures
        common_len(a, b) == n,
    decreases n,
{
    if n > 0 {
        assert(a[0] == b[0]);
        let x = a.drop_first();
        let y = b.drop_first();
        assert forall|i: int| 0 <= i < n - 1 implies #[trigger] x[i] == y[i] by {
            assert(a[i + 1] == b[i + 1]);
        }
        lemma_common_len_is(x, y, n - 1);
    }
}

/// The way from the directory with the names `from` to the file with the names `to`.
fn relative(from: &Vec<String>, to: &Vec<String>) -> (r: String)
    ensures
        r@ == relative_path(texts(from@), texts(to@)),
{
    let ghost f = texts(from@);
    let ghost t = texts(to@);
    let mut common: usize = 0;
    while common < to.len() && common < from.len() && same(
        to[common].as_str(),
        from[common].as_str(),
    )
        invariant
            f == texts(from@),
            t == texts(to@),
            common <= to@.len(),
            common <= from@.len(),
            forall|i: int| 0 <= i < common ==> #[trigger] t[i] == f[i],
        decreases to@.len() - common,
    {
        assert(t[common as int] == to@[common as int]@);
        assert(f[common as int] == from@[common as int]@);
        common += 1;
    }
    proof {
        if common < to@.len() && common < from@.len() {
            assert(t[common as int] == to@[common as int]@);
            assert(f[common as int] == from@[common as int]@);
        }
        lemma_common_len_is(t, f, common as int);
    }
    let mut downs: Vec<String> = Vec::new();
    let mut i: usize = common;
    assert(texts(downs@) =~= t.subrange(common as int, common as int));
    while i < to.len()
        invariant
            t == texts(to@),
            common <= i <= to@.len(),
            texts(downs@) == t.subrange(common as int, i as int),
        decreases to@.len() - i,
    {
        let ghost before = downs@;
        let part: String = to[i].clone();
        downs.push(part);
        proof {
            lemma_texts_push(before, part);
            assert(t[i as int] == part@);
            assert(texts(downs@) =~= t.subrange(common as int, i + 1));
        }
        i += 1;
    }
    assert(texts(downs@) =~= t.skip(common as int));
    let mut out: String = repeat("../", from.len() - common);
    let tail: String = join(&downs, "/");
    out.append(tail.as_str());
    out
}

/// The text of `s` up to its first question mark.
fn cut_query(s: &str) -> (r: String)
    ensures
        r@ == before_query(s@),
{
    let v: Vec<char> = to_chars(s);
    let at: usize = find_in(&v, CharClass::Just('?'), 0);
    let r: String = from_chars(&v, 0, at);
    assert(r@ =~= before_query(s@));
    r
}

/// Rewrites a link of a page in the directory `current_dir` for the local mirror.
///
/// A link to another site stays as it is. An asset is looked for in the directory
/// `assets` at the content root, a page by the relative way to it.
pub fn normalize_url(url: &str, current_dir: &str, is_asset: bool) -> (r: String)
    ensures
        r@ == normalized_url(url@, current_dir@, is_asset),
{
    if url.is_empty() {
        return owned(url);
    }
    let is_htl: bool = starts_with(url, "https://htl.dev") || starts_with(
        url,
        "https://www.htl.dev",
    );
    if starts_with(url, "http") && !is_htl {
        return owned(url);
    }
    let raw: String = if is_htl {
        let bare: String = strip(url, "https://www.htl.dev");
        let rest: String = strip(bare.as_str(), "https://htl.dev");
        cut_query(rest.as_str())
    } else if starts_with(url, "/") {
        cut_query(url)
    } else {
        owned(url)
    };
    let path: String = url_decode(raw.as_str());
    assert(path@ == url_path(url@));

    if is_asset && contains(path.as_str(), "/md/assets/") {
        let mut out: String = repeat("../", depth_of(current_dir));
        out.append("assets/");
        let name: String = last_part_of(path.as_str());
        out.append(name.as_str());
        return out;
    }
    if ends_with(path.as_str(), ".md") && starts_with(path.as_str(), "/md/") {
        let target: Vec<String> = parts_of(path.as_str());
        let current: Vec<String> = parts_of(current_dir);
        return relative(&current, &target);
    }
    owned(url)
}

/// Where following the names of a relative link leads from a directory: `..`
/// leaves a directory, any other name enters one.
pub open spec fn follow(dir: Seq<Seq<char>>, link: Seq<Seq<char>>) -> Seq<Seq<char>>
    decreases link.len(),
{
    if link.len() == 0 {
        dir
    } else if link[0] == ".."@ {
        follow(
            if dir.len() > 0 {
                dir.drop_last()
            } else {
                dir
            },
            link.drop_first(),
        )
    } else {
        follow(dir.push(link[0]), link.drop_first())
    }
}

proof fn lemma_parts_of_ups(n: nat, rest: Seq<char>)
    ensures
        path_parts(repeated("../"@, n) + rest) == Seq::new(n, |i: int| ".."@) + path_parts(rest),
    decreases n,
{
    reveal_strlit("../");
    reveal_strlit("..");
    if n == 0 {
        assert(repeated("../"@, n) + rest =~= rest);
        assert(Seq::new(n, |i: int| ".."@) + path_parts(rest) =~= path_parts(rest));
    } else {
        let m = (n - 1) as nat;
        let tail = "../"@ + rest;
        assert(repeated("../"@, n) + rest =~= repeated("../"@, m) + tail);
        lemma_parts_of_ups(m, tail);
        assert(tail =~= ".."@ + seq!['/'] + rest);
        lemma_parted_concat(".."@, rest, '/');
        lemma_parted_one(".."@, '/');
        assert(Seq::new(m, |i: int| ".."@) + (seq![".."@] + path_parts(rest)) =~= Seq::new(
            n,
            |i: int| ".."@,
        ) + path_parts(rest));
    }
}

proof fn lemma_follow_downs(dir: Seq<Seq<char>>, downs: Seq<Seq<char>>)
    requires
        !downs.contains(".."@),
    ensures
        follow(dir, downs) == dir + downs,
    decreases downs.len(),
{
    if downs.len() == 0 {
        assert(dir + downs =~= dir);
    } else {
        assert(downs.contains(downs[0]));
        let rest = downs.drop_first();
        assert(!rest.contains(".."@)) by {
            if rest.contains(".."@) {
                let i = choose|i: int| 0 <= i < rest.len() && rest[i] == ".."@;
                assert(downs[i + 1] == ".."@);
            }
        }
        lemma_follow_downs(dir.push(downs[0]), rest);
        assert(dir.push(downs[0]) + rest =~= dir + downs);
    }
}

proof fn lemma_follow_ups(dir: Seq<Seq<char>>, n: nat, downs: Seq<Seq<char>>)
    requires
        n <= dir.len(),
        !downs.contains(".."@),
    ensures
        follow(dir, Seq::new(n, |i: int| ".."@) + downs) == dir.take(dir.len() - n) + downs,
    decreases n,
{
    let link = Seq::new(n, |i: int| ".."@) + downs;
    if n == 0 {
        assert(link =~= downs);
        assert(dir.take(dir.len() as int) =~= dir);
        lemma_follow_downs(dir, downs);
    } else {
        let m = (n - 1) as nat;
        assert(link[0] == ".."@);
        assert(link.drop_first() =~= Seq::new(m, |i: int| ".."@) + downs);
        lemma_follow_ups(dir.drop_last(), m, downs);
        assert(dir.drop_last().take(dir.len() - 1 - m) =~= dir.take(dir.len() - n));
    }
}

/// Following the relative way from a directory to a file leads to the file, if no
/// name of the file is `..`.
pub proof fn law_relative_path_leads(from: Seq<Seq<char>>, to: Seq<Seq<char>>)
    requires
        are_pieces(to, '/'),
        !to.contains(".."@),
    ensures
        follow(from, path_parts(relative_path(from, to))) == to,
{
    let common = common_len(to, from);
    lemma_common_len(to, from);
    let downs = to.skip(common as int);
    let n = (from.len() - common) as nat;
    assert(are_pieces(downs, '/')) by {
        assert forall|i: int| 0 <= i < downs.len() implies (#[trigger] downs[i]).len() > 0
            && !downs[i].contains('/') by {
            assert(downs[i] == to[i + common]);
        }
    }
    assert(!downs.contains(".."@)) by {
        if downs.contains(".."@) {
            let i = choose|i: int| 0 <= i < downs.len() && downs[i] == ".."@;
            assert(to[i + common] == ".."@);
        }
    }
    lemma_parts_of_ups(n, joined(downs, "/"@));
    reveal_strlit("/");
    assert("/"@ =~= seq!['/']);
    lemma_parted_joined(downs, '/');
    lemma_follow_ups(from, n, downs);
    assert(from.take(from.len() - n) =~= to.take(common as int));
    assert(to.take(common as int) + downs =~= to);
}

/// A link to a page of the site, rewritten for a page in the directory `dir`,
/// leads from there to the page, if no name in its path is `..`.
pub proof fn law_normalized_link_leads(url: Seq<char>, dir: Seq<char>)
    requires
        url.len() > 0,
        is_site_url(url) || "/"@.is_prefix_of(url),
        is_page_path(url_path(url)),
        !path_parts(url_path(url)).contains(".."@),
    ensures
        follow(path_parts(dir), path_parts(normalized_url(url, dir, false))) == path_parts(
            url_path(url),
        ),
{
    reveal_strlit("/");
    reveal_strlit("http");
    if "http"@.is_prefix_of(url) && "/"@.is_prefix_of(url) {
        assert(url[0] == "http"@[0]);
        assert(url[0] == "/"@[0]);
    }
    lemma_parted_pieces(url_path(url), '/');
    law_relative_path_leads(path_parts(dir), path_parts(url_path(url)));
}

// ---------------------------------------------------------------------------
// Laws
// ---------------------------------------------------------------------------

/// Whether a character is a hexadecimal digit.
pub open spec fn is_hex(c: char) -> bool {
    '0' <= c <= '9' || 'a' <= c <= 'f' || 'A' <= c <= 'F'
}

/// A hexadecimal digit, in lower case or in upper case, has its value, and nothing else has
/// one.
pub proof fn law_hex_values(n: int, b: u8)
    requires
        0 <= n < 16,
    ensures
        hex_value("0123456789abcdef"@[n] as u8) == Some(n),
        hex_value("0123456789ABCDEF"@[n] as u8) == Some(n),
        hex_value(b) is Some <==> is_hex(b as char),
{
    reveal_strlit("0123456789abcdef");
    reveal_strlit("0123456789ABCDEF");
}

/// An ASCII text in which no percent sign is followed by two digits, or by a plus sign and
/// a digit, stays as it is when escapes are resolved.
pub proof fn law_text_without_escapes_stays(s: Seq<char>)
    requires
        is_ascii_chars(s),
        forall|i: int|
            0 <= i < s.len() - 2 && #[trigger] s[i] == '%' ==> !((is_hex(s[i + 1]) || s[i + 1] == '+')
                && is_hex(s[i + 2])),
    ensures
        url_decoded(s) == s,
{
    is_ascii_chars_encode_utf8(s);
    let b = encode_utf8(s);
    assert forall|i: int| 0 <= i < s.len() implies #[trigger] b[i] as char == s[i] by {}
    lemma_no_escapes(s, b, 0);
    assert(s.skip(0) =~= s);
}

proof fn lemma_no_escapes(s: Seq<char>, b: Seq<u8>, i: int)
    requires
        0 <= i <= s.len(),
        b.len() == s.len(),
        forall|j: int| 0 <= j < s.len() ==> #[trigger] b[j] as char == s[j],
        forall|j: int|
            0 <= j < s.len() - 2 && #[trigger] s[j] == '%' ==> !((is_hex(s[j + 1]) || s[j + 1] == '+')
                && is_hex(s[j + 2])),
    ensures
        decoded_from(b, i) == s.skip(i),
    decreases s.len() - i,
{
    if i < s.len() {
        lemma_no_escapes(s, b, i + 1);
        if b[i] == 37 && i + 2 < b.len() {
            assert(s[i] == '%');
            assert(b[i + 1] as char == s[i + 1]);
            assert(b[i + 2] as char == s[i + 2]);
            assert(!escape_at(b, i));
        }
        assert(s.skip(i) =~= seq![s[i]] + s.skip(i + 1));
    } else {
        assert(decoded_from(b, i) =~= s.skip(i));
    }
}

/// Whether an address holds a character as it is.
pub open spec fn is_plain_char(c: char) -> bool {
    '0' <= c <= '9' || 'a' <= c <= 'z' || 'A' <= c <= 'Z' || c == '-' || c == '_' || c == '.' || c
        == '/' || c == '~'
}

/// Encoding leaves nothing but letters, digits, five signs and percent signs, and a text of
/// the former alone as it is.
pub proof fn law_encoded_text_is_plain(s: Seq<char>)
    ensures
        forall|i: int|
            0 <= i < percent_encoded(s).len() ==> is_plain_char(#[trigger] percent_encoded(s)[i])
                || percent_encoded(s)[i] == '%',
        (forall|i: int| 0 <= i < s.len() ==> is_plain_char(#[trigger] s[i])) ==> percent_encoded(s)
            == s,
{
    lemma_encoded_plain(encode_utf8(s));
    if forall|i: int| 0 <= i < s.len() ==> is_plain_char(#[trigger] s[i]) {
        assert(is_ascii_chars(s)) by {
            assert forall|i: int| 0 <= i < s.len() implies '\0' <= #[trigger] s[i] <= '\u{7f}' by {
                assert(is_plain_char(s[i]));
            }
        }
        is_ascii_chars_encode_utf8(s);
        let b = encode_utf8(s);
        assert forall|i: int| 0 <= i < b.len() implies is_plain_byte(#[trigger] b[i]) && b[i] as char
            == s[i] by {
            assert(is_plain_char(s[i]));
        }
        lemma_plain_bytes_stay(b);
        assert(percent_encoded(s) =~= s);
    }
}

proof fn lemma_encoded_plain(b: Seq<u8>)
    ensures
        forall|i: int|
            0 <= i < encoded_bytes(b).len() ==> is_plain_char(#[trigger] encoded_bytes(b)[i])
                || encoded_bytes(b)[i] == '%',
    decreases b.len(),
{
    if b.len() > 0 {
        lemma_encoded_plain(b.drop_last());
        let before = encoded_bytes(b.drop_last());
        let e = encoded_byte(b.last());
        assert forall|j: int| 0 <= j < e.len() implies is_plain_char(#[trigger] e[j]) || e[j] == '%' by {}
        assert forall|i: int| 0 <= i < encoded_bytes(b).len() implies is_plain_char(
            #[trigger] encoded_bytes(b)[i],
        ) || encoded_bytes(b)[i] == '%' by {
            if i < before.len() {
                assert(encoded_bytes(b)[i] == before[i]);
            } else {
                assert(encoded_bytes(b)[i] == e[i - before.len()]);
            }
        }
    }
}

proof fn lemma_plain_bytes_stay(b: Seq<u8>)
    requires
        forall|i: int| 0 <= i < b.len() ==> is_plain_byte(#[trigger] b[i]),
    ensures
        encoded_bytes(b).len() == b.len(),
        forall|i: int| 0 <= i < b.len() ==> #[trigger] encoded_bytes(b)[i] == b[i] as char,
    decreases b.len(),
{
    if b.len() > 0 {
        assert forall|i: int| 0 <= i < b.len() - 1 implies is_plain_byte(
            #[trigger] b.drop_last()[i],
        ) by {
            assert(b.drop_last()[i] == b[i]);
        }
        lemma_plain_bytes_stay(b.drop_last());
        assert(is_plain_byte(b[b.len() - 1]));
    }
}

/// What follows the last slash of a path is its last part.
pub proof fn law_last_part(dir: Seq<char>, name: Seq<char>)
    requires
        !name.contains('/'),
    ensures
        last_part(name) == name,
        last_part(dir + seq!['/'] + name) == name,
{
    lemma_split_single(name, '/');
    lemma_split_concat(dir, name, '/', 0);
}

/// What an address asks for is its path, without the name of the site before it and
/// without the query behind it, and with its escapes resolved.
pub proof fn law_url_path(path: Seq<char>, query: Seq<char>)
    requires
        path.len() > 0,
        path[0] == '/',
        !path.contains('?'),
    ensures
        url_path(path) == url_decoded(path),
        url_path(path + seq!['?'] + query) == url_decoded(path),
        url_path("https://htl.dev"@ + path) == url_decoded(path),
        url_path("https://htl.dev"@ + path + seq!['?'] + query) == url_decoded(path),
        url_path("https://www.htl.dev"@ + path) == url_decoded(path),
        url_path("https://www.htl.dev"@ + path + seq!['?'] + query) == url_decoded(path),
{
    lemma_before_query(path, query);
    lemma_url_path(path, path);
    lemma_url_path(path + seq!['?'] + query, path);
    assert("https://htl.dev"@ + path + seq!['?'] + query =~= "https://htl.dev"@ + (path + seq!['?']
        + query));
    assert("https://www.htl.dev"@ + path + seq!['?'] + query =~= "https://www.htl.dev"@ + (path
        + seq!['?'] + query));
}

proof fn lemma_before_query(path: Seq<char>, query: Seq<char>)
    requires
        !path.contains('?'),
    ensures
        before_query(path) == path,
        before_query(path + seq!['?'] + query) == path,
{
    let k = CharClass::Just('?');
    lemma_next_in(path, k, 0);
    let j = next_in(path, k, 0);
    if j < path.len() {
        assert(path.contains(path[j]));
    }
    assert(before_query(path) =~= path);
    let s = path + seq!['?'] + query;
    lemma_next_in(s, k, 0);
    let m = next_in(s, k, 0);
    assert(s[path.len() as int] == '?');
    if m < path.len() {
        assert(s[m] == path[m]);
        assert(path.contains(path[m]));
    }
    assert(m <= path.len()) by {
        if m > path.len() {
            assert(in_class(k, s[path.len() as int]));
        }
    }
    assert(before_query(s) =~= path);
}

proof fn lemma_url_path(rest: Seq<char>, path: Seq<char>)
    requires
        rest.len() > 0,
        rest[0] == '/',
        before_query(rest) == path,
        path.len() > 0,
    ensures
        url_path(rest) == url_decoded(path),
        url_path("https://htl.dev"@ + rest) == url_decoded(path),
        url_path("https://www.htl.dev"@ + rest) == url_decoded(path),
        "http"@.is_prefix_of("https://htl.dev"@ + rest),
        "http"@.is_prefix_of("https://www.htl.dev"@ + rest),
        is_site_url("https://htl.dev"@ + rest),
        is_site_url("https://www.htl.dev"@ + rest),
        !"http"@.is_prefix_of(rest),
{
    let host = "https://htl.dev"@;
    let www = "https://www.htl.dev"@;
    reveal_strlit("https://htl.dev");
    reveal_strlit("https://www.htl.dev");
    reveal_strlit("/");
    reveal_strlit("http");
    assert("/"@ =~= rest.subrange(0, 1));
    let a = host + rest;
    let b = www + rest;
    assert(host =~= a.subrange(0, host.len() as int));
    assert(www =~= b.subrange(0, www.len() as int));
    assert("http"@ =~= a.subrange(0, 4));
    assert("http"@ =~= b.subrange(0, 4));
    if host.is_prefix_of(rest) {
        assert(rest.subrange(0, host.len() as int)[0] == host[0]);
    }
    if www.is_prefix_of(rest) {
        assert(rest.subrange(0, www.len() as int)[0] == www[0]);
    }
    if "http"@.is_prefix_of(rest) {
        assert(rest.subrange(0, 4)[0] == "http"@[0]);
    }
    if www.is_prefix_of(a) {
        assert(a.subrange(0, www.len() as int)[8] == www[8]);
        assert(a[8] == host[8]);
    }
    assert(a.skip(host.len() as int) =~= rest);
    assert(b.skip(www.len() as int) =~= rest);
    reveal_with_fuel(stripped, 2);
    assert(stripped(a, www) == a);
    assert(stripped(a, host) == rest);
    assert(stripped(b, www) == rest);
    assert(stripped(rest, host) == rest);
}

/// A link to a page of the site, whether with the name of the site before it or not and with
/// a query behind it or not, leads from a page in the directory `dir` to that page: its
/// path, with escapes resolved, lies below the content root and ends as markdown pages do.
/// No name in it may be `..`.
pub proof fn law_links_to_pages_lead(path: Seq<char>, query: Seq<char>, dir: Seq<char>)
    requires
        path.len() > 0,
        path[0] == '/',
        !path.contains('?'),
        "/md/"@.is_prefix_of(url_decoded(path)),
        ".md"@.is_suffix_of(url_decoded(path)),
        !path_parts(url_decoded(path)).contains(".."@),
    ensures
        ({
            let to = path_parts(url_decoded(path));
            let from = path_parts(dir);
            &&& follow(from, path_parts(normalized_url(path, dir, false))) == to
            &&& follow(
                from,
                path_parts(normalized_url(path + seq!['?'] + query, dir, false)),
            ) == to
            &&& follow(
                from,
                path_parts(normalized_url("https://htl.dev"@ + path, dir, false)),
            ) == to
            &&& follow(
                from,
                path_parts(normalized_url("https://www.htl.dev"@ + path, dir, false)),
            ) == to
        }),
{
    law_url_path(path, query);
    lemma_before_query(path, query);
    lemma_url_path(path, path);
    lemma_url_path(path + seq!['?'] + query, path);
    reveal_strlit("/");
    assert("/"@ =~= path.subrange(0, 1));
    let long = path + seq!['?'] + query;
    assert("/"@ =~= long.subrange(0, 1));
    law_normalized_link_leads(path, dir);
    law_normalized_link_leads(long, dir);
    law_normalized_link_leads("https://htl.dev"@ + path, dir);
    law_normalized_link_leads("https://www.htl.dev"@ + path, dir);
}

/// A link to another site stays as it is, and so does one that leads neither to a page nor,
/// where an asset is meant, to an asset.
pub proof fn law_other_links_stay(url: Seq<char>, dir: Seq<char>, is_asset: bool)
    ensures
        "http"@.is_prefix_of(url) && !"https://htl.dev"@.is_prefix_of(url)
            && !"https://www.htl.dev"@.is_prefix_of(url) ==> normalized_url(url, dir, is_asset)
            == url,
        !(is_asset && has(url_path(url), "/md/assets/"@)) && !(".md"@.is_suffix_of(url_path(url))
            && "/md/"@.is_prefix_of(url_path(url))) ==> normalized_url(url, dir, is_asset) == url,
{
}

/// How deep a directory lies below the content root is how many names lead there.
pub proof fn law_depth(names: Seq<Seq<char>>)
    requires
        are_pieces(names, '/'),
        !names.contains("md"@),
    ensures
        depth_below_root(joined(names, "/"@)) == names.len(),
        depth_below_root("/md/"@ + joined(names, "/"@)) == names.len(),
        depth_below_root("/md"@) == 0,
{
    reveal_strlit("/md/");
    reveal_strlit("/md");
    reveal_strlit("md");
    let s = joined(names, "/"@);
    let e = Seq::<char>::empty();
    lemma_depth_joined(names);
    lemma_depth_one(e);
    lemma_depth_one("md"@);
    lemma_depth_concat(e, "md"@);
    lemma_depth_concat(e + seq!['/'] + "md"@, s);
    assert("/md"@ =~= e + seq!['/'] + "md"@);
    assert("/md/"@ + s =~= "/md"@ + seq!['/'] + s);
}

spec fn counts(p: Seq<char>) -> bool {
    p.len() > 0 && p != "md"@
}

proof fn lemma_depth_is(dir: Seq<char>)
    ensures
        depth_below_root(dir) == split(dir, '/').filter(|p: Seq<char>| counts(p)).len(),
{
    assert((|p: Seq<char>| p.len() > 0 && p != "md"@) =~= (|p: Seq<char>| counts(p)));
}

proof fn lemma_depth_concat(a: Seq<char>, b: Seq<char>)
    ensures
        depth_below_root(a + seq!['/'] + b) == depth_below_root(a) + depth_below_root(b),
{
    lemma_depth_is(a);
    lemma_depth_is(b);
    lemma_depth_is(a + seq!['/'] + b);
    lemma_split_concat(a, b, '/', 0);
    Seq::filter_distributes_over_add(split(a, '/'), split(b, '/'), |p: Seq<char>| counts(p));
}

proof fn lemma_depth_one(name: Seq<char>)
    requires
        !name.contains('/'),
    ensures
        depth_below_root(name) == (if name.len() > 0 && name != "md"@ {
            1nat
        } else {
            0nat
        }),
{
    lemma_depth_is(name);
    lemma_split_single(name, '/');
    reveal_with_fuel(Seq::filter, 2);
    assert(seq![name].drop_last() =~= seq![]);
    assert(seq![name].last() == name);
}

proof fn lemma_depth_joined(names: Seq<Seq<char>>)
    requires
        are_pieces(names, '/'),
        !names.contains("md"@),
    ensures
        depth_below_root(joined(names, "/"@)) == names.len(),
    decreases names.len(),
{
    reveal_strlit("/");
    assert("/"@ =~= seq!['/']);
    if names.len() == 0 {
        lemma_depth_one(Seq::empty());
    } else {
        let init = names.drop_last();
        let last = names[names.len() - 1];
        assert(names.contains(last));
        lemma_depth_one(last);
        if names.len() > 1 {
            assert(!init.contains("md"@)) by {
                if init.contains("md"@) {
                    let i = choose|i: int| 0 <= i < init.len() && init[i] == "md"@;
                    assert(names[i] == "md"@);
                }
            }
            assert forall|i: int| 0 <= i < init.len() implies (#[trigger] init[i]).len() > 0
                && !init[i].contains('/') by {
                assert(init[i] == names[i]);
            }
            lemma_depth_joined(init);
            lemma_depth_concat(joined(init, "/"@), last);
        }
    }
}

/// An image of the site leads from a page in a directory below the content root to the file
/// of its name in the directory of the assets, which lies at the content root.
pub proof fn law_asset_links_lead(
    url: Seq<char>,
    above: Seq<char>,
    name: Seq<char>,
    names: Seq<Seq<char>>,
)
    requires
        url.len() > 0,
        "http"@.is_prefix_of(url) ==> is_site_url(url),
        url_path(url) == above + seq!['/'] + name,
        has(url_path(url), "/md/assets/"@),
        name.len() > 0,
        !name.contains('/'),
        name != ".."@,
        are_pieces(names, '/'),
        !names.contains("md"@),
    ensures
        follow(
            names,
            path_parts(normalized_url(url, "/md/"@ + joined(names, "/"@), true)),
        ) == seq!["assets"@, name],
{
    let dir = "/md/"@ + joined(names, "/"@);
    let n = names.len();
    law_depth(names);
    law_last_part(above, name);
    reveal_strlit("assets/");
    reveal_strlit("assets");
    reveal_strlit("..");
    let tail = "assets/"@ + name;
    assert(normalized_url(url, dir, true) =~= repeated("../"@, n) + tail);
    lemma_parts_of_ups(n, tail);
    assert(tail =~= "assets"@ + seq!['/'] + name);
    lemma_parted_concat("assets"@, name, '/');
    lemma_parted_one("assets"@, '/');
    lemma_parted_one(name, '/');
    let downs = seq!["assets"@, name];
    assert(seq!["assets"@] + seq![name] =~= downs);
    assert("assets"@.len() != ".."@.len());
    assert(!downs.contains(".."@)) by {
        if downs.contains(".."@) {
            let i = choose|i: int| 0 <= i < downs.len() && downs[i] == ".."@;
            assert(i == 0 || i == 1);
        }
    }
    lemma_follow_ups(names, n, downs);
    assert(names.take(0) + downs =~= downs);
}

/// The way to a file goes up no further than it has to: names that the directory and the
/// file begin with alike are not part of it, and from where they part it goes up once for
/// each name of the directory and then down the names of the file.
pub proof fn law_relative_path_is_shortest(
    common: Seq<Seq<char>>,
    from: Seq<Seq<char>>,
    to: Seq<Seq<char>>,
)
    requires
        from.len() > 0 && to.len() > 0 ==> from[0] != to[0],
    ensures
        relative_path(common + from, common + to) == repeated("../"@, from.len()) + joined(to, "/"@),
{
    let a = common + to;
    let b = common + from;
    let n = common.len() as int;
    assert forall|i: int| 0 <= i < n implies #[trigger] a[i] == b[i] by {}
    if n < a.len() && n < b.len() {
        assert(a[n] == to[0] && b[n] == from[0]);
    }
    lemma_common_len_is(a, b, n);
    assert(a.skip(n) =~= to);
}

proof fn lemma_encode_add(a: Seq<char>, b: Seq<char>)
    ensures
        encode_utf8(a + b) == encode_utf8(a) + encode_utf8(b),
    decreases a.len(),
{
    if a.len() == 0 {
        assert(a + b =~= b);
        assert(encode_utf8(a) + encode_utf8(b) =~= encode_utf8(b));
    } else {
        lemma_encode_add(a.drop_first(), b);
        assert((a + b).drop_first() =~= a.drop_first() + b);
        assert(encode_utf8(a + b) =~= encode_utf8(a) + encode_utf8(b));
    }
}

proof fn lemma_decoded_shift(a: Seq<u8>, t: Seq<u8>, i: int)
    requires
        0 <= i <= t.len(),
    ensures
        decoded_from(a + t, a.len() + i) == decoded_from(t, i),
    decreases t.len() - i,
{
    let s = a + t;
    let n = a.len() as int;
    if i < t.len() {
        assert(s[n + i] == t[i]);
        if i + 2 < t.len() {
            assert(s[n + i + 1] == t[i + 1]);
            assert(s[n + i + 2] == t[i + 2]);
        }
        if escape_at(t, i) {
            lemma_decoded_shift(a, t, i + 3);
        } else {
            lemma_decoded_shift(a, t, i + 1);
        }
    }
}

proof fn lemma_decoded_front(b: Seq<u8>, i: int, n: int)
    requires
        0 <= i <= n <= b.len(),
        forall|j: int| i <= j < n ==> #[trigger] b[j] != 37,
    ensures
        decoded_from(b, i) == bytes_as_chars(b.subrange(i, n)) + decoded_from(b, n),
    decreases n - i,
{
    if i < n {
        lemma_decoded_front(b, i + 1, n);
        assert(b[i] != 37);
        assert(bytes_as_chars(b.subrange(i, n)) =~= seq![b[i] as char] + bytes_as_chars(
            b.subrange(i + 1, n),
        ));
        assert(decoded_from(b, i) =~= bytes_as_chars(b.subrange(i, n)) + decoded_from(b, n));
    } else {
        assert(decoded_from(b, i) =~= bytes_as_chars(b.subrange(i, n)) + decoded_from(b, n));
    }
}

/// A percent sign with two digits behind it, or with a plus sign and a digit, stands for the
/// character of their number; what stands before it stays, and what follows is resolved
/// alike.
pub proof fn law_escapes_are_resolved(a: Seq<char>, hi: char, lo: char, b: Seq<char>)
    requires
        is_ascii_chars(a),
        !a.contains('%'),
        is_hex(lo),
        is_hex(hi) || hi == '+',
    ensures
        url_decoded(a + seq!['%', hi, lo] + b) == a + seq![
            ((if hi == '+' {
                0
            } else {
                hex_value(hi as u8)->0
            }) * 16 + hex_value(lo as u8)->0) as u8 as char,
        ] + url_decoded(b),
{
    let p = a + seq!['%', hi, lo];
    let s = p + b;
    let n = a.len() as int;
    assert(is_ascii_chars(p)) by {
        assert forall|i: int| 0 <= i < p.len() implies '\0' <= #[trigger] p[i] <= '\u{7f}' by {
            if i < n {
                assert(p[i] == a[i]);
            }
        }
    }
    is_ascii_chars_encode_utf8(p);
    let front = encode_utf8(p);
    let rest = encode_utf8(b);
    lemma_encode_add(p, b);
    let all = front + rest;
    assert(encode_utf8(s) == all);
    assert forall|j: int| 0 <= j < n implies #[trigger] all[j] == a[j] as u8 && all[j] != 37 by {
        assert(front[j] == p[j] as u8);
        assert(a.contains(a[j]));
    }
    lemma_decoded_front(all, 0, n);
    assert(bytes_as_chars(all.subrange(0, n)) =~= a) by {
        assert forall|j: int| 0 <= j < n implies bytes_as_chars(all.subrange(0, n))[j] == a[j] by {
            assert(all[j] == a[j] as u8);
        }
    }
    assert(front[n] == p[n] as u8 && front[n + 1] == p[n + 1] as u8 && front[n + 2] == p[n
        + 2] as u8);
    assert(all[n] == 37 && all[n + 1] == hi as u8 && all[n + 2] == lo as u8);
    assert(escape_at(all, n));
    lemma_decoded_shift(front, rest, 0);
    assert(front.len() == n + 3);
    assert(url_decoded(s) =~= a + seq![escaped_byte(hi as u8, lo as u8)->0 as char] + url_decoded(
        b,
    ));
}

} // verus!
