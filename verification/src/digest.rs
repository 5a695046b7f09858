//! Digests by which a change of content is noticed.

use crate::number::{hex, hex_number, hex_text, numeral};
use vstd::prelude::*;
use vstd::string::*;
use vstd::utf8::*;

verus! {

/// The BLAKE3 digest of a sequence of bytes.
pub uninterp spec fn blake3_hash(data: Seq<u8>) -> Seq<u8>;

/// `blake3::hash`: 32 bytes that depend on the data alone.
#[verifier::external_body]
fn hash_bytes(data: &[u8]) -> (r: Vec<u8>)
    ensures
        r@ == blake3_hash(data@),
        r@.len() == 32,
{
    blake3::hash(data).as_bytes().to_vec()
}

/// The number that bytes write, the lowest first.
pub open spec fn little_endian(bytes: Seq<u8>) -> nat
    decreases bytes.len(),
{
    if bytes.len() == 0 {
        0
    } else {
        bytes[0] as nat + 256 * little_endian(bytes.drop_first())
    }
}

/// The digest of a document in hexadecimal digits.
pub open spec fn content_hash_of(content: Seq<char>) -> Seq<char> {
    hex(blake3_hash(encode_utf8(content)))
}

/// The first half of the digest of a page, as a hexadecimal number.
pub open spec fn page_hash_of(page: Seq<char>) -> Seq<char> {
    numeral(little_endian(blake3_hash(encode_utf8(page)).take(16)), 16)
}

/// The digest of a document, by which the index notices a change.
pub fn content_hash(content: &str) -> (r: String)
    ensures
        r@ == content_hash_of(content@),
        r@.len() == 64,
{
    let bytes: Vec<u8> = hash_bytes(content.as_bytes());
    hex_text(&bytes)
}

proof fn lemma_little_endian_bound(bytes: Seq<u8>)
    requires
        bytes.len() <= 16,
    ensures
        little_endian(bytes) < vstd::arithmetic::power::pow(256, bytes.len()),
    decreases bytes.len(),
{
    reveal(vstd::arithmetic::power::pow);
    if bytes.len() > 0 {
        lemma_little_endian_bound(bytes.drop_first());
    }
}

/// The first sixteen bytes of the digest as a number.
pub fn md5_digest(data: &[u8]) -> (r: u128)
    ensures
        r == little_endian(blake3_hash(data@).take(16)),
{
    let bytes: Vec<u8> = hash_bytes(data);
    let ghost half = blake3_hash(data@).take(16);
    let mut value: u128 = 0;
    let mut i: usize = 16;
    assert(little_endian(half.skip(16)) == 0);
    while i > 0
        invariant
            bytes@ == blake3_hash(data@),
            bytes@.len() == 32,
            half == blake3_hash(data@).take(16),
            i <= 16,
            value == little_endian(half.skip(i as int)),
        decreases i,
    {
        i -= 1;
        proof {
            let rest = half.skip(i + 1);
            lemma_little_endian_bound(rest);
            assert(half.skip(i as int).drop_first() =~= rest);
            assert(half.skip(i as int)[0] == bytes@[i as int]);
            vstd::arithmetic::power::lemma_pow_increases(256, rest.len(), 15);
            assert(vstd::arithmetic::power::pow(256, 15) == 0x1_000000_00000000_00000000_00000000)
                by {
                reveal_with_fuel(vstd::arithmetic::power::pow, 16);
            }
        }
        value = value * 256 + bytes[i] as u128;
    }
    assert(half.skip(0) =~= half);
    value
}

/// The digest of a page of the mirror.
pub fn page_hash(page: &str) -> (r: String)
    ensures
        r@ == page_hash_of(page@),
{
    hex_number(md5_digest(page.as_bytes()))
}

/// Documents with different digests have different hashes.
pub proof fn law_content_hash_tells_digests_apart(a: Seq<char>, b: Seq<char>)
    requires
        content_hash_of(a) == content_hash_of(b),
    ensures
        blake3_hash(encode_utf8(a)) == blake3_hash(encode_utf8(b)),
{
    let x = blake3_hash(encode_utf8(a));
    let y = blake3_hash(encode_utf8(b));
    assert(hex(x).len() == hex(y).len());
    assert forall|i: int| 0 <= i < x.len() implies x[i] == y[i] by {
        assert(hex(x)[2 * i] == hex(y)[2 * i]);
        assert(hex(x)[2 * i + 1] == hex(y)[2 * i + 1]);
        assert((2 * i) / 2 == i && (2 * i + 1) / 2 == i);
        assert(x[i] as int / 16 == y[i] as int / 16);
        assert(x[i] as int % 16 == y[i] as int % 16);
    }
    assert(x =~= y);
}

/// Pages with digests that differ in their first half have different hashes.
pub proof fn law_page_hash_tells_digests_apart(a: Seq<char>, b: Seq<char>)
    requires
        page_hash_of(a) == page_hash_of(b),
        blake3_hash(encode_utf8(a)).len() == 32,
        blake3_hash(encode_utf8(b)).len() == 32,
    ensures
        forall|i: int|
            0 <= i < 16 ==> #[trigger] blake3_hash(encode_utf8(a))[i] == blake3_hash(
                encode_utf8(b),
            )[i],
{
    let x = blake3_hash(encode_utf8(a)).take(16);
    let y = blake3_hash(encode_utf8(b)).take(16);
    crate::number::law_numerals_differ(little_endian(x), little_endian(y), 16);
    lemma_little_endian_differs(x, y);
    assert forall|i: int| 0 <= i < 16 implies #[trigger] blake3_hash(encode_utf8(a))[i]
        == blake3_hash(encode_utf8(b))[i] by {
        assert(x[i] == y[i]);
    }
}

proof fn lemma_little_endian_differs(x: Seq<u8>, y: Seq<u8>)
    requires
        x.len() == y.len(),
        little_endian(x) == little_endian(y),
    ensures
        x == y,
    decreases x.len(),
{
    if x.len() > 0 {
        lemma_little_endian_differs(x.drop_first(), y.drop_first());
        assert(x =~= seq![x[0]] + x.drop_first());
        assert(y =~= seq![y[0]] + y.drop_first());
    } else {
        assert(x =~= y);
    }
}

/// The number that bytes write is made of the first of them and, each time with more
/// weight, of those behind it.
pub proof fn law_little_endian(low: u8, rest: Seq<u8>)
    ensures
        little_endian(seq![low] + rest) % 256 == low as nat,
        little_endian(seq![low] + rest) / 256 == little_endian(rest),
        little_endian(Seq::<u8>::empty()) == 0,
{
    assert((seq![low] + rest).drop_first() =~= rest);
}

} // verus!
