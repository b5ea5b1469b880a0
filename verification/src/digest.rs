//! Names of cached files: the SHA-256 digest of a remote path, in hex.
use vstd::prelude::*;
use vstd::slice::slice_to_vec;
use vstd::utf8::decode_utf8;
use vstd::utf8::encode_utf8;
use vstd::utf8::valid_utf8;
use sha2::Digest;
use crate::bytes::ascii;
use crate::bytes::ascii_bytes;

verus! {

/// The text that `String::from_utf8_lossy` makes of a byte string.
pub uninterp spec fn utf8_lossy(bytes: Seq<u8>) -> Seq<char>;

/// The digest that SHA-256 gives for a byte string.
pub uninterp spec fn sha256(data: Seq<u8>) -> Seq<u8>;

/// Calls `String::from_utf8_lossy` of the standard library. The claim: the
/// text depends on the bytes alone, and bytes that are UTF-8 are decoded as
/// they stand.
#[verifier::external_body]
fn lossy_string(bytes: &[u8]) -> (r: String)
    ensures
        r@ == utf8_lossy(bytes@),
        valid_utf8(bytes@) ==> r@ == decode_utf8(bytes@),
{
    String::from_utf8_lossy(bytes).into_owned()
}

/// Calls `Sha256::new`, `update` and `finalize` of the crate `sha2`. The
/// claim: the digest depends on the data alone and has 32 bytes.
#[verifier::external_body]
fn sha256_bytes(data: &[u8]) -> (r: Vec<u8>)
    ensures
        r@ == sha256(data@),
        r@.len() == 32,
{
    let mut hasher = sha2::Sha256::new();
    hasher.update(data);
    hasher.finalize().to_vec()
}

/// The lower case hexadecimal digit of a number below 16.
pub open spec fn hex_digit(n: int) -> char {
    if n < 10 {
        (48 + n) as char
    } else {
        (87 + n) as char
    }
}

/// Two lower case hexadecimal digits for each byte, the high one first.
pub open spec fn hex_text(data: Seq<u8>) -> Seq<char> {
    Seq::new(
        2 * data.len(),
        |i: int|
            if i % 2 == 0 {
                hex_digit(data[i / 2] as int / 16)
            } else {
                hex_digit(data[i / 2] as int % 16)
            },
    )
}

/// Calls `hex::encode` of the crate `hex`. The claim: the string has two lower
/// case hexadecimal digits for each byte.
#[verifier::external_body]
fn hex_string(data: &[u8]) -> (r: String)
    requires
        2 * data@.len() <= isize::MAX,
    ensures
        r@ == hex_text(data@),
{
    hex::encode(data)
}

/// The UTF-8 text nearest to a byte string: the bytes themselves where they
/// are UTF-8.
pub open spec fn lossy(bytes: Seq<u8>) -> Seq<u8> {
    if valid_utf8(bytes) {
        bytes
    } else {
        encode_utf8(utf8_lossy(bytes))
    }
}

/// The UTF-8 text nearest to a byte string.
pub fn lossy_bytes(bytes: &[u8]) -> (r: Vec<u8>)
    ensures
        r@ == lossy(bytes@),
{
    let s = lossy_string(bytes);
    proof {
        if valid_utf8(bytes@) {
            vstd::utf8::decode_utf8_encode_utf8(bytes@);
        }
    }
    slice_to_vec(s.as_str().as_bytes())
}

/// The name under which the file at `path` is cached.
pub open spec fn cache_name(path: Seq<u8>) -> Seq<u8> {
    ascii(hex_text(sha256(lossy(path))))
}

/// Whether `b` is a lower case hexadecimal digit.
pub open spec fn is_hex(b: u8) -> bool {
    48 <= b <= 57 || 97 <= b <= 102
}

/// The bytes of hexadecimal text are hexadecimal digits.
pub proof fn lemma_hex_text(data: Seq<u8>)
    ensures
        ascii(hex_text(data)).len() == 2 * data.len(),
        forall|i: int|
            0 <= i < ascii(hex_text(data)).len() ==> is_hex(#[trigger] ascii(hex_text(data))[i]),
        vstd::utf8::is_ascii_chars(hex_text(data)),
{
    let t = hex_text(data);
    assert forall|i: int| 0 <= i < t.len() implies is_hex(#[trigger] ascii(t)[i]) && (t[i] as u32)
        < 128 by {
        let n = if i % 2 == 0 {
            data[i / 2] as int / 16
        } else {
            data[i / 2] as int % 16
        };
        assert(0 <= n < 16);
        assert(t[i] == hex_digit(n));
    }
}

/// The name that a digest gives: two hexadecimal digits for each byte.
pub fn digest_name(digest: &[u8]) -> (r: Vec<u8>)
    requires
        2 * digest@.len() <= isize::MAX,
    ensures
        r@ == ascii(hex_text(digest@)),
{
    let h = hex_string(digest);
    proof {
        lemma_hex_text(digest@);
    }
    ascii_bytes(h.as_str())
}

/// The name under which the file at `path` is cached: 64 hexadecimal digits.
pub fn cache_file_name(path: &[u8]) -> (r: Vec<u8>)
    ensures
        r@ == cache_name(path@),
        r@.len() == 64,
        forall|i: int| 0 <= i < r@.len() ==> is_hex(#[trigger] r@[i]),
{
    let text = lossy_bytes(path);
    let digest = sha256_bytes(text.as_slice());
    proof {
        lemma_hex_text(digest@);
    }
    digest_name(digest.as_slice())
}

// ---------------------------------------------------------------------------
// Which file has which name
// ---------------------------------------------------------------------------

/// The number that a lower case hexadecimal digit stands for.
pub open spec fn hex_value(b: u8) -> int {
    if b <= 57 {
        b - 48
    } else {
        b - 87
    }
}

/// Whether a text is a byte string in hexadecimal notation: two digits for each
/// byte, the high one first.
pub open spec fn spells(text: Seq<u8>, data: Seq<u8>) -> bool {
    &&& text.len() == 2 * data.len()
    &&& forall|i: int| 0 <= i < text.len() ==> is_hex(#[trigger] text[i])
    &&& forall|i: int|
        0 <= i < data.len() ==> #[trigger] data[i] == 16 * hex_value(text[2 * i]) + hex_value(
            text[2 * i + 1],
        )
}

proof fn lemma_hex_spells(data: Seq<u8>)
    ensures
        spells(ascii(hex_text(data)), data),
{
    let t = hex_text(data);
    let a = ascii(t);
    lemma_hex_text(data);
    assert forall|i: int| 0 <= i < data.len() implies #[trigger] data[i] == 16 * hex_value(
        a[2 * i],
    ) + hex_value(a[2 * i + 1]) by {
        let h = data[i] as int / 16;
        let l = data[i] as int % 16;
        assert((2 * i) / 2 == i && (2 * i) % 2 == 0);
        assert((2 * i + 1) / 2 == i && (2 * i + 1) % 2 == 1);
        assert(t[2 * i] == hex_digit(h));
        assert(t[2 * i + 1] == hex_digit(l));
        assert(hex_value(a[2 * i]) == h);
        assert(hex_value(a[2 * i + 1]) == l);
    }
}

/// Two byte strings with one spelling are equal.
pub proof fn law_spelling_is_unique(text: Seq<u8>, a: Seq<u8>, b: Seq<u8>)
    requires
        spells(text, a),
        spells(text, b),
    ensures
        a == b,
{
    assert forall|i: int| 0 <= i < a.len() implies a[i] == b[i] by {
        assert(a[i] == 16 * hex_value(text[2 * i]) + hex_value(text[2 * i + 1]));
        assert(b[i] == 16 * hex_value(text[2 * i]) + hex_value(text[2 * i + 1]));
    }
    assert(a =~= b);
}

/// A file is cached under the digest of its whole path, in hexadecimal
/// notation; of a path that is not UTF-8, under that of the nearest text. So
/// paths with different digests are cached under different names.
pub proof fn law_name_spells_digest(p: Seq<u8>, q: Seq<u8>)
    ensures
        valid_utf8(p) ==> spells(cache_name(p), sha256(p)),
        !valid_utf8(p) ==> spells(cache_name(p), sha256(encode_utf8(utf8_lossy(p)))),
        valid_utf8(p) && valid_utf8(q) && sha256(p) != sha256(q) ==> cache_name(p) != cache_name(
            q,
        ),
{
    lemma_hex_spells(sha256(lossy(p)));
    lemma_hex_spells(sha256(lossy(q)));
    if valid_utf8(p) && valid_utf8(q) && cache_name(p) == cache_name(q) {
        law_spelling_is_unique(cache_name(p), sha256(p), sha256(q));
    }
}

} // verus!
