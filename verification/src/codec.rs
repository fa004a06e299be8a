//! Hashing, hexadecimal and zlib coding, done by the `sha1`, `hex` and `flate2` crates.
use vstd::prelude::*;
use std::io::Read;
use std::io::Write;
use sha1::Digest;

verus! {

/// The lower-case hexadecimal digit for a value below 16.
pub open spec fn hex_digit(n: int) -> char {
    if n < 10 {
        (48 + n) as char
    } else {
        (87 + n) as char
    }
}

/// Lower-case hexadecimal text of bytes: two digits per byte, high nibble first.
pub open spec fn hex_lower(b: Seq<u8>) -> Seq<char>
    decreases b.len(),
{
    if b.len() == 0 {
        seq![]
    } else {
        seq![hex_digit((b[0] / 16) as int), hex_digit((b[0] % 16) as int)] + hex_lower(b.drop_first())
    }
}

/// Whether a byte is an ASCII hexadecimal digit of either case.
pub open spec fn is_hex_byte(c: u8) -> bool {
    (48 <= c <= 57) || (65 <= c <= 70) || (97 <= c <= 102)
}

/// The value of an ASCII hexadecimal digit.
pub open spec fn hex_value(c: u8) -> int {
    if 48 <= c <= 57 {
        c - 48
    } else if 65 <= c <= 70 {
        c - 55
    } else {
        c - 87
    }
}

/// Text that `hex::decode` accepts: an even number of hexadecimal digits.
pub open spec fn is_hex_text(s: Seq<u8>) -> bool {
    s.len() % 2 == 0 && forall|i: int| 0 <= i < s.len() ==> is_hex_byte(#[trigger] s[i])
}

/// The bytes that hexadecimal text stands for, two digits per byte.
pub open spec fn hex_bytes(s: Seq<u8>) -> Seq<u8> {
    Seq::new(s.len() / 2, |i: int| (hex_value(s[2 * i]) * 16 + hex_value(s[2 * i + 1])) as u8)
}

/// A lower-case hexadecimal digit character.
pub open spec fn is_lower_hex_char(c: char) -> bool {
    (48 <= (c as u32) <= 57) || (97 <= (c as u32) <= 102)
}

/// An object id as git writes it: forty lower-case hexadecimal digits.
pub open spec fn is_oid(s: Seq<char>) -> bool {
    s.len() == 40 && forall|i: int| 0 <= i < s.len() ==> is_lower_hex_char(#[trigger] s[i])
}

/// Hexadecimal text, position by position.
pub proof fn lemma_hex_lower_index(b: Seq<u8>)
    ensures
        hex_lower(b).len() == 2 * b.len(),
        forall|j: int|
            0 <= j < b.len() ==> hex_lower(b)[2 * j] == hex_digit((b[j] / 16) as int) && hex_lower(
                b,
            )[2 * j + 1] == hex_digit((b[j] % 16) as int),
    decreases b.len(),
{
    if b.len() > 0 {
        lemma_hex_lower_index(b.drop_first());
        let h = hex_lower(b);
        let t = hex_lower(b.drop_first());
        assert forall|j: int| 0 <= j < b.len() implies h[2 * j] == hex_digit((b[j] / 16) as int)
            && h[2 * j + 1] == hex_digit((b[j] % 16) as int) by {
            if j > 0 {
                assert(h[2 * j] == t[2 * (j - 1)]);
                assert(h[2 * j + 1] == t[2 * (j - 1) + 1]);
                assert(b.drop_first()[j - 1] == b[j]);
            }
        }
    }
}

/// The hexadecimal text of a twenty-byte digest is an object id.
pub proof fn lemma_digest_oid(d: Seq<u8>)
    requires
        d.len() == 20,
    ensures
        is_oid(hex_lower(d)),
{
    lemma_hex_lower_index(d);
    let h = hex_lower(d);
    assert forall|i: int| 0 <= i < h.len() implies is_lower_hex_char(#[trigger] h[i]) by {
        let j = i / 2;
        let hi = (d[j] / 16) as int;
        let lo = (d[j] % 16) as int;
        assert(0 <= hi < 16 && 0 <= lo < 16);
        if i % 2 == 0 {
            assert(i == 2 * j);
            assert(h[i] == hex_digit(hi));
        } else {
            assert(i == 2 * j + 1);
            assert(h[i] == hex_digit(lo));
        }
    }
}

/// A lower-case hexadecimal digit is the digit of its value.
proof fn lemma_hex_digit_of_value(c: char)
    requires
        is_lower_hex_char(c),
    ensures
        0 <= hex_value(c as u8) < 16,
        hex_digit(hex_value(c as u8)) == c,
        is_hex_byte(c as u8),
{
    let u = c as u32;
    vstd::utf8::char_u32_cast(c, u);
    assert((c as u8) as u32 == u);
}

/// Decoding lower-case hexadecimal text and encoding the bytes again gives the text back.
pub proof fn lemma_hex_roundtrip(s: Seq<char>)
    requires
        s.len() % 2 == 0,
        forall|i: int| 0 <= i < s.len() ==> is_lower_hex_char(#[trigger] s[i]),
    ensures
        is_hex_text(vstd::utf8::encode_utf8(s)),
        hex_bytes(vstd::utf8::encode_utf8(s)).len() == s.len() / 2,
        hex_lower(hex_bytes(vstd::utf8::encode_utf8(s))) == s,
{
    let e = vstd::utf8::encode_utf8(s);
    assert(vstd::utf8::is_ascii_chars(s)) by {
        assert forall|i: int| 0 <= i < s.len() implies '\0' <= #[trigger] s[i] && s[i] <= '\u{7f}' by {
            lemma_ascii(s[i]);
        }
    }
    vstd::utf8::is_ascii_chars_encode_utf8(s);
    assert forall|i: int| 0 <= i < e.len() implies is_hex_byte(#[trigger] e[i]) by {
        lemma_hex_digit_of_value(s[i]);
    }
    let x = hex_bytes(e);
    lemma_hex_lower_index(x);
    let h = hex_lower(x);
    assert forall|i: int| 0 <= i < s.len() implies h[i] == s[i] by {
        let j = i / 2;
        lemma_hex_digit_of_value(s[2 * j]);
        lemma_hex_digit_of_value(s[2 * j + 1]);
        let hi = hex_value(e[2 * j]);
        let lo = hex_value(e[2 * j + 1]);
        assert(x[j] == (hi * 16 + lo) as u8);
        assert((x[j] / 16) as int == hi);
        assert((x[j] % 16) as int == lo);
        if i % 2 == 0 {
            assert(i == 2 * j);
        } else {
            assert(i == 2 * j + 1);
        }
    }
    assert(h == s);
}

/// A lower-case hexadecimal digit is ASCII.
proof fn lemma_ascii(c: char)
    requires
        is_lower_hex_char(c),
    ensures
        '\0' <= c && c <= '\u{7f}',
{
}

/// The SHA-1 digest of a byte sequence.
pub uninterp spec fn sha1_of(data: Seq<u8>) -> Seq<u8>;

/// What reading a byte sequence to its end through `flate2`'s zlib decoder gives: the
/// bytes it decompresses, or `None` where it reports an error.
pub uninterp spec fn zlib_inflate(data: Seq<u8>) -> Option<Seq<u8>>;

/// `hex::encode`: the lower-case hexadecimal text of the bytes.
#[verifier::external_body]
pub fn hex_encode(data: &[u8]) -> (res: String)
    ensures
        res@ == hex_lower(data@),
{
    hex::encode(data)
}

/// The error type of `hex::decode`.
#[verifier::external_type_specification]
#[verifier::external_body]
pub struct ExFromHexError(hex::FromHexError);

/// `hex::decode`: succeeds exactly on an even number of hexadecimal digits of either case,
/// and then gives one byte per pair of digits.
#[verifier::external_body]
pub fn hex_decode(text: &[u8]) -> (res: Result<Vec<u8>, hex::FromHexError>)
    ensures
        res is Ok <==> is_hex_text(text@),
        res matches Ok(v) ==> v@ == hex_bytes(text@),
{
    hex::decode(text)
}

/// `<sha1::Sha1 as Digest>::digest`: the SHA-1 digest, whose output size is 20 bytes.
#[verifier::external_body]
pub fn sha1_digest(data: &[u8]) -> (res: Vec<u8>)
    ensures
        res@ == sha1_of(data@),
        res@.len() == 20,
{
    sha1::Sha1::digest(data).to_vec()
}

/// What compressing a byte sequence into a `Vec` with `flate2::write::ZlibEncoder` at the
/// default level gives (the pure-Rust `miniz_oxide` backend): the compressed bytes, or
/// `None` where the encoder reports an error.
pub uninterp spec fn zlib_deflate(data: Seq<u8>) -> Option<Seq<u8>>;

/// Compresses with `flate2::write::ZlibEncoder` at the default level. The result is a
/// function of the input (named `zlib_deflate`); which bytes it is, and whether the
/// encoder can fail at all, is not stated. Compressed bytes decompress to the input.
#[verifier::external_body]
pub fn zlib_compress(data: &[u8]) -> (res: Option<Vec<u8>>)
    ensures
        match zlib_deflate(data@) {
            Some(c) => res matches Some(v) && v@ == c,
            None => res is None,
        },
        res matches Some(c) ==> zlib_inflate(c@) == Some(data@),
{
    let mut encoder = flate2::write::ZlibEncoder::new(Vec::new(), flate2::Compression::default());
    match encoder.write_all(data) {
        Ok(()) => {},
        Err(_) => return None,
    }
    match encoder.finish() {
        Ok(v) => Some(v),
        Err(_) => None,
    }
}

/// Decompresses with `flate2::read::ZlibDecoder`, reading to the end.
#[verifier::external_body]
pub fn zlib_decompress(data: &[u8]) -> (res: Option<Vec<u8>>)
    ensures
        match res {
            Some(v) => zlib_inflate(data@) == Some(v@),
            None => zlib_inflate(data@) is None,
        },
{
    let mut decoder = flate2::read::ZlibDecoder::new(data);
    let mut raw = Vec::new();
    match decoder.read_to_end(&mut raw) {
        Ok(_) => Some(raw),
        Err(_) => None,
    }
}

} // verus!
